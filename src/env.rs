//! The environment a command runs in, and the cache directory of a script.
use vstd::prelude::*;

use crate::paths::{file_stem, join, join_path, path_stem};
use crate::options::filter_view;
use crate::text::{chars_of, str_eq, string_of};

verus! {

/// Why a path could not be resolved.
#[derive(Debug, PartialEq)]
pub enum EnvError {
    /// The path could not be resolved on this machine.
    Unresolvable(String),
    /// The resolved path has no file stem.
    NoStem,
}

/// The environment the command is executed in: where the cargo home is,
/// and how a path is resolved. An implementation resolves a given path the
/// same way throughout a run.
pub trait ExecutionEnv {
    /// The cargo home directory of this environment.
    spec fn home(&self) -> Seq<char>;

    /// The resolution of `path` in this environment; `None` where it has
    /// none.
    spec fn resolve(&self, path: Seq<char>) -> Option<Seq<char>>;

    fn get_cargo_home_dir(&self) -> (r: String)
        ensures
            r@ == self.home(),
    ;

    fn normalize(&self, path: &str) -> (r: Result<String, EnvError>)
        ensures
            match self.resolve(path@) {
                Some(p) => r is Ok && r->Ok_0@ == p,
                None => r is Err,
            },
    ;
}

/// An environment that takes paths as they are written, and touches no file
/// system.
#[derive(Clone, Debug)]
pub struct LocalEnv {
    pub cargo_directory: String,
}

impl LocalEnv {
    /// An environment with the cargo home of `env` that takes paths as they
    /// are written.
    pub fn from_env<E: ExecutionEnv>(env: &E) -> (r: Self)
        ensures
            r.cargo_directory@ == env.home(),
            forall|p: Seq<char>| #[trigger] r.resolve(p) == Some(p),
    {
        LocalEnv { cargo_directory: env.get_cargo_home_dir() }
    }
}

impl ExecutionEnv for LocalEnv {
    open spec fn home(&self) -> Seq<char> {
        self.cargo_directory@
    }

    open spec fn resolve(&self, path: Seq<char>) -> Option<Seq<char>> {
        Some(path)
    }

    fn get_cargo_home_dir(&self) -> (r: String) {
        self.cargo_directory.clone()
    }

    fn normalize(&self, path: &str) -> (r: Result<String, EnvError>) {
        Ok(path.to_owned())
    }
}

/// The resolution of `k` in a table of resolutions: the later of two
/// entries for one path holds.
pub open spec fn lookup(t: Seq<(Seq<char>, Seq<char>)>, k: Seq<char>) -> Option<Seq<char>>
    decreases t.len(),
{
    if t.len() == 0 {
        None
    } else if t.last().0 == k {
        Some(t.last().1)
    } else {
        lookup(t.drop_last(), k)
    }
}

/// The environment of this process. The program that runs the library
/// resolves paths on the file system against the working directory and
/// records each resolution here; a path not yet recorded is unresolvable,
/// and the error names it.
#[derive(Clone, Debug)]
pub struct StdExecutionEnv {
    pub working_directory: String,
    pub cargo_directory: String,
    /// Each path with its resolution.
    pub resolved: Vec<(String, String)>,
}

impl ExecutionEnv for StdExecutionEnv {
    open spec fn home(&self) -> Seq<char> {
        self.cargo_directory@
    }

    open spec fn resolve(&self, path: Seq<char>) -> Option<Seq<char>> {
        lookup(filter_view(self.resolved@), path)
    }

    fn get_cargo_home_dir(&self) -> (r: String) {
        self.cargo_directory.clone()
    }

    fn normalize(&self, path: &str) -> (r: Result<String, EnvError>) {
        let ghost f = filter_view(self.resolved@);
        let mut i: usize = self.resolved.len();
        assert(f.subrange(0, f.len() as int) =~= f);
        while i > 0
            invariant
                f == filter_view(self.resolved@),
                i <= self.resolved@.len(),
                lookup(f, path@) == lookup(f.subrange(0, i as int), path@),
            decreases i,
        {
            let ghost pre = f.subrange(0, i as int);
            assert(pre.drop_last() =~= f.subrange(0, i - 1));
            assert(pre.last() == (self.resolved@[i - 1].0@, self.resolved@[i - 1].1@));
            i = i - 1;
            if str_eq(self.resolved[i].0.as_str(), path) {
                return Ok(self.resolved[i].1.clone());
            }
        }
        Err(EnvError::Unresolvable(path.to_owned()))
    }
}

/// A lower-case hexadecimal digit.
pub open spec fn is_hex_digit(c: char) -> bool {
    ('0' <= c && c <= '9') || ('a' <= c && c <= 'f')
}

/// The SHA-1 digest of the UTF-8 bytes of a string, in lower-case hex.
pub uninterp spec fn sha1_hex_of(s: Seq<char>) -> Seq<char>;

/// Relies on `sha1::Sha1` (`update`, then `digest` written with `Display`):
/// the digest of the string's bytes as five 32-bit words of eight
/// lower-case hex digits each (`{:08x}`).
#[verifier::external_body]
fn sha1_hex(s: &str) -> (r: String)
    ensures
        r@ == sha1_hex_of(s@),
        r@.len() == 40,
        forall|i: int| 0 <= i < 40 ==> is_hex_digit(#[trigger] r@[i]),
{
    let mut hash = sha1::Sha1::new();
    hash.update(s.as_bytes());
    hash.digest().to_string()
}

/// The first eight hex digits of the SHA-1 digest of a path.
pub fn hash_path(path: &str) -> (r: String)
    ensures
        r@ == sha1_hex_of(path@).subrange(0, 8),
        r@.len() == 8,
        forall|i: int| 0 <= i < 8 ==> is_hex_digit(#[trigger] r@[i]),
{
    let digest = sha1_hex(path);
    let cs = chars_of(digest.as_str());
    let mut out: Vec<char> = Vec::new();
    let mut i: usize = 0;
    while i < 8
        invariant
            cs@ == sha1_hex_of(path@),
            cs@.len() == 40,
            forall|j: int| 0 <= j < 40 ==> is_hex_digit(#[trigger] cs@[j]),
            i <= 8,
            out@ == cs@.subrange(0, i as int),
        decreases 8 - i,
    {
        out.push(cs[i]);
        i = i + 1;
    }
    string_of(out.as_slice())
}

/// The directory under the cargo home that holds the cached projects.
pub open spec fn cache_dir_of(home: Seq<char>) -> Seq<char> {
    join(home, "wop-cache"@)
}

/// The name of the cached project of a resolved script path: the file stem,
/// a dash, and eight hex digits of the path's digest.
pub open spec fn project_name_of(resolved: Seq<char>) -> Option<Seq<char>> {
    match path_stem(resolved) {
        Some(stem) => Some(stem + "-"@ + sha1_hex_of(resolved).subrange(0, 8)),
        None => None,
    }
}

/// Find the internal cache dir of the tool.
pub fn find_cache_dir<E: ExecutionEnv>(env: &E) -> (r: String)
    ensures
        r@ == cache_dir_of(env.home()),
{
    let home = env.get_cargo_home_dir();
    join_path(home.as_str(), "wop-cache")
}

/// The cached project directory of the script whose resolved path is
/// `resolved`, under the cache directory `cache_dir`.
pub fn project_dir_in(resolved: &str, cache_dir: &str) -> (r: Result<String, EnvError>)
    ensures
        match project_name_of(resolved@) {
            Some(name) => r is Ok && r->Ok_0@ == join(cache_dir@, name),
            None => r == Err::<String, EnvError>(EnvError::NoStem),
        },
{
    let stem = match file_stem(resolved) {
        Some(s) => s,
        None => {
            return Err(EnvError::NoStem);
        },
    };
    let hash = hash_path(resolved);
    let mut name = chars_of(stem.as_str());
    name.push('-');
    let h = chars_of(hash.as_str());
    let ghost before = name@;
    let mut i: usize = 0;
    while i < h.len()
        invariant
            i <= h@.len(),
            name@ == before + h@.subrange(0, i as int),
        decreases h@.len() - i,
    {
        name.push(h[i]);
        i = i + 1;
    }
    proof {
        reveal_strlit("-");
    }
    assert(h@.subrange(0, h@.len() as int) =~= h@);
    assert(name@ =~= stem@ + "-"@ + sha1_hex_of(resolved@).subrange(0, 8));
    let name = string_of(name.as_slice());
    Ok(join_path(cache_dir, name.as_str()))
}

/// Find the cached project directory of a script: the script's path is
/// resolved in the environment, and the project is named after its stem
/// and the digest of the resolved path.
pub fn find_project_dir<E: ExecutionEnv>(source: &str, env: &E) -> (r: Result<String, EnvError>)
    ensures
        match env.resolve(source@) {
            None => r is Err,
            Some(resolved) => match project_name_of(resolved) {
                Some(name) => r is Ok && r->Ok_0@ == join(cache_dir_of(env.home()), name),
                None => r == Err::<String, EnvError>(EnvError::NoStem),
            },
        },
{
    let resolved = match env.normalize(source) {
        Ok(p) => p,
        Err(e) => {
            return Err(e);
        },
    };
    let cache = find_cache_dir(env);
    project_dir_in(resolved.as_str(), cache.as_str())
}

} // verus!
