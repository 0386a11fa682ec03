use cargo_wop::env::{
    find_cache_dir, find_project_dir, hash_path, project_dir_in, EnvError, ExecutionEnv, LocalEnv,
};
use cargo_wop::paths::join_path;
use std::path::PathBuf;

fn parent_path(p: &str) -> Option<PathBuf> {
    PathBuf::from(p).parent().map(|p| p.to_owned())
}

#[test]
fn path_parent_examples() {
    assert_eq!(parent_path("example.rs"), Some(PathBuf::from("")));
    assert_eq!(parent_path("./example.rs"), Some(PathBuf::from(".")));
    assert_eq!(parent_path("foo/example.rs"), Some(PathBuf::from("foo")));
    assert_eq!(
        parent_path("foo/bar/example.rs"),
        Some(PathBuf::from("foo/bar"))
    );
}

#[test]
fn joining_paths() {
    assert_eq!(join_path("/a/b", "c"), "/a/b/c");
    assert_eq!(join_path("/a/b/", "c"), "/a/b/c");
    assert_eq!(join_path("/a/b", "/c"), "/c");
    assert_eq!(join_path("", "c"), "c");
}


#[test]
fn path_hash_is_the_start_of_the_digest() {
    // SHA-1 of "abc"
    assert_eq!(hash_path("abc"), "a9993e36");
    assert_eq!(hash_path("Hello World!"), "2ef7bde6");
}

#[test]
fn project_directory_layout() {
    assert_eq!(
        project_dir_in("abc", "/home/u/.cargo/wop-cache"),
        Ok(String::from("/home/u/.cargo/wop-cache/abc-a9993e36"))
    );
    assert_eq!(project_dir_in("/", "/c"), Err(EnvError::NoStem));
}

#[test]
fn local_environment() {
    let env = LocalEnv { cargo_directory: String::from("/home/u/.cargo") };
    assert_eq!(env.get_cargo_home_dir(), "/home/u/.cargo");
    assert_eq!(env.normalize("x/y.rs"), Ok(String::from("x/y.rs")));
    assert_eq!(find_cache_dir(&env), "/home/u/.cargo/wop-cache");
    let copy = LocalEnv::from_env(&env);
    assert_eq!(copy.cargo_directory, "/home/u/.cargo");
    assert_eq!(
        find_project_dir("abc", &env),
        Ok(String::from("/home/u/.cargo/wop-cache/abc-a9993e36"))
    );
}

#[test]
fn table_environment() {
    use_table();
}

fn use_table() {
    let env = cargo_wop::env::StdExecutionEnv {
        working_directory: String::from("/w"),
        cargo_directory: String::from("/c"),
        resolved: vec![
            (String::from("a"), String::from("/w/a")),
            (String::from("a"), String::from("/w/b")),
        ],
    };
    assert_eq!(env.normalize("a"), Ok(String::from("/w/b")));
    assert_eq!(env.normalize("x"), Err(EnvError::Unresolvable(String::from("x"))));
    assert_eq!(find_project_dir("x", &env), Err(EnvError::Unresolvable(String::from("x"))));
}
