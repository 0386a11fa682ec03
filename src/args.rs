//! Command resolution: the raw argument list classified into one action.
use vstd::prelude::*;

use crate::paths::{has_extension, path_has_extension};
use crate::text::str_eq;

verus! {

/// Run the action that the script's descriptor configures.
#[derive(Debug, PartialEq)]
pub struct DefaultAction {
    pub target: String,
    pub args: Vec<String>,
}

/// A call of a cargo subcommand on the script's project.
#[derive(Debug, PartialEq)]
pub struct CargoCall {
    pub command: String,
    pub target: String,
    pub args: Vec<String>,
}

/// A program to run on a target with arguments.
#[derive(Debug, PartialEq)]
pub struct Exec {
    pub command: String,
    pub target: String,
    pub args: Vec<String>,
}

/// The action that a command line asks for.
#[derive(Debug, PartialEq)]
pub enum Args {
    /// Execute the default action
    DefaultAction(DefaultAction),
    /// Execute a direct cargo command
    GenericCargoCall(CargoCall),
    /// A build step
    BuildCargoCall(CargoCall),
    /// A install step that gets passed the manifest dir not the file
    InstallCargoCall(CargoCall),
    /// Print out the manifest
    Manifest(String),
    /// Write the manifest to the current directory
    WriteManifest(String),
    /// Show usage info and general help
    Help,
    /// Show available templates for new
    ListTemplates,
    /// Create a new file
    New(String, String),
}

/// Why a command line was refused.
#[derive(Debug, PartialEq)]
pub enum UsageError {
    /// Fewer than two arguments.
    TooFewArguments,
    /// The first argument is not the tool's name.
    NotWop,
    /// A manifest command without exactly one target.
    ManifestArguments,
    /// Help with extra arguments.
    HelpArguments,
    /// `new` with neither zero nor two arguments.
    NewArguments,
    /// A cargo command without a target.
    MissingTarget,
    /// An unknown command keyword.
    UnknownCommand(String),
}

/// The model of an action.
pub enum Command {
    DefaultAction(Seq<char>, Seq<Seq<char>>),
    Generic(Seq<char>, Seq<char>, Seq<Seq<char>>),
    Build(Seq<char>, Seq<char>, Seq<Seq<char>>),
    Install(Seq<char>, Seq<char>, Seq<Seq<char>>),
    Manifest(Seq<char>),
    WriteManifest(Seq<char>),
    Help,
    ListTemplates,
    New(Seq<char>, Seq<char>),
}

/// The model of a usage error.
pub enum Usage {
    TooFewArguments,
    NotWop,
    ManifestArguments,
    HelpArguments,
    NewArguments,
    MissingTarget,
    UnknownCommand(Seq<char>),
}

/// The views of a list of strings.
pub open spec fn views(v: Seq<String>) -> Seq<Seq<char>> {
    v.map_values(|s: String| s@)
}

impl View for Args {
    type V = Command;

    open spec fn view(&self) -> Command {
        match self {
            Args::DefaultAction(d) => Command::DefaultAction(d.target@, views(d.args@)),
            Args::GenericCargoCall(c) => Command::Generic(c.command@, c.target@, views(c.args@)),
            Args::BuildCargoCall(c) => Command::Build(c.command@, c.target@, views(c.args@)),
            Args::InstallCargoCall(c) => Command::Install(c.command@, c.target@, views(c.args@)),
            Args::Manifest(t) => Command::Manifest(t@),
            Args::WriteManifest(t) => Command::WriteManifest(t@),
            Args::Help => Command::Help,
            Args::ListTemplates => Command::ListTemplates,
            Args::New(a, b) => Command::New(a@, b@),
        }
    }
}

impl View for UsageError {
    type V = Usage;

    open spec fn view(&self) -> Usage {
        match self {
            UsageError::TooFewArguments => Usage::TooFewArguments,
            UsageError::NotWop => Usage::NotWop,
            UsageError::ManifestArguments => Usage::ManifestArguments,
            UsageError::HelpArguments => Usage::HelpArguments,
            UsageError::NewArguments => Usage::NewArguments,
            UsageError::MissingTarget => Usage::MissingTarget,
            UsageError::UnknownCommand(c) => Usage::UnknownCommand(c@),
        }
    }
}

/// The cargo subcommands that the tool passes on.
pub open spec fn cargo_commands() -> Seq<Seq<char>> {
    seq![
        "bench"@,
        "build"@,
        "build-debug"@,
        "check"@,
        "clean"@,
        "clippy"@,
        "fmt"@,
        "install"@,
        "locate-project"@,
        "metadata"@,
        "pkgid"@,
        "run"@,
        "run-debug"@,
        "tree"@,
        "test"@,
        "verify-project"@,
    ]
}

/// The position of the first `x` in `a`, or -1.
pub open spec fn first_index(a: Seq<Seq<char>>, x: Seq<char>) -> int
    decreases a.len(),
{
    if a.len() == 0 {
        -1
    } else {
        let p = first_index(a.drop_last(), x);
        if p >= 0 {
            p
        } else if a.last() == x {
            a.len() - 1
        } else {
            -1
        }
    }
}

/// The arguments of a cargo call split into those for cargo and those for
/// the script: only `run` splits, at the first `--`; without one, all go to
/// the script.
pub open spec fn split_spec(command: Seq<char>, a: Seq<Seq<char>>) -> (Seq<Seq<char>>, Seq<Seq<char>>) {
    if command != "run"@ {
        (a, Seq::empty())
    } else {
        let p = first_index(a, "--"@);
        if 0 <= p < a.len() {
            (a.subrange(0, p), a.subrange(p + 1, a.len() as int))
        } else {
            (Seq::empty(), a)
        }
    }
}

/// The arguments of a cargo call after normalization: `--release` after
/// the cargo arguments of `build` and `run`, and the script arguments after
/// a `--` where there are any.
pub open spec fn normalized_args(command: Seq<char>, a: Seq<Seq<char>>) -> Seq<Seq<char>> {
    let (cargo, script) = split_spec(command, a);
    let cargo2 = if command == "build"@ || command == "run"@ {
        cargo.push("--release"@)
    } else {
        cargo
    };
    if script.len() == 0 {
        cargo2
    } else {
        cargo2.push("--"@) + script
    }
}

/// The subcommand that a command keyword stands for: the debug forms stand
/// for the base command.
pub open spec fn base_command(command: Seq<char>) -> Seq<char> {
    if command == "build-debug"@ {
        "build"@
    } else if command == "run-debug"@ {
        "run"@
    } else {
        command
    }
}

/// The action of a cargo call, by its subcommand.
pub open spec fn cargo_action(command: Seq<char>, target: Seq<char>, a: Seq<Seq<char>>) -> Command {
    if command == "build"@ {
        Command::Build(command, target, a)
    } else if command == "install"@ {
        Command::Install(command, target, a)
    } else {
        Command::Generic(command, target, a)
    }
}

/// What a command line resolves to.
pub open spec fn parse_spec(args: Seq<Seq<char>>) -> Result<Command, Usage> {
    if args.len() < 2 {
        Err(Usage::TooFewArguments)
    } else if args[0] != "wop"@ {
        Err(Usage::NotWop)
    } else if path_has_extension(args[1]) {
        Ok(Command::DefaultAction(args[1], args.subrange(2, args.len() as int)))
    } else {
        let c = args[1];
        let rest = args.subrange(2, args.len() as int);
        if c == "manifest"@ || c == "write-manifest"@ {
            if rest.len() != 1 {
                Err(Usage::ManifestArguments)
            } else if c == "manifest"@ {
                Ok(Command::Manifest(rest[0]))
            } else {
                Ok(Command::WriteManifest(rest[0]))
            }
        } else if c == "help"@ || c == "--help"@ {
            if rest.len() == 0 {
                Ok(Command::Help)
            } else {
                Err(Usage::HelpArguments)
            }
        } else if c == "new"@ {
            if rest.len() == 0 {
                Ok(Command::ListTemplates)
            } else if rest.len() == 2 {
                Ok(Command::New(rest[0], rest[1]))
            } else {
                Err(Usage::NewArguments)
            }
        } else if cargo_commands().contains(c) {
            if rest.len() == 0 {
                Err(Usage::MissingTarget)
            } else {
                Ok(
                    cargo_action(
                        base_command(c),
                        rest[0],
                        normalized_args(c, rest.subrange(1, rest.len() as int)),
                    ),
                )
            }
        } else {
            Err(Usage::UnknownCommand(c))
        }
    }
}

proof fn lemma_first_index_prefix(a: Seq<Seq<char>>, x: Seq<char>, n: int)
    requires
        0 <= n <= a.len(),
        first_index(a.subrange(0, n), x) >= 0,
    ensures
        first_index(a, x) == first_index(a.subrange(0, n), x),
    decreases a.len() - n,
{
    if n < a.len() {
        assert(a.subrange(0, n + 1).drop_last() =~= a.subrange(0, n));
        lemma_first_index_prefix(a, x, n + 1);
    } else {
        assert(a.subrange(0, n) =~= a);
    }
}

proof fn lemma_first_index_range(a: Seq<Seq<char>>, x: Seq<char>)
    ensures
        -1 <= first_index(a, x) < a.len(),
    decreases a.len(),
{
    if a.len() > 0 {
        lemma_first_index_range(a.drop_last(), x);
    }
}

/// The position of the first `x` in `a`.
fn find_arg(a: &Vec<String>, x: &str) -> (r: Option<usize>)
    ensures
        match r {
            Some(p) => p as int == first_index(views(a@), x@),
            None => first_index(views(a@), x@) < 0,
        },
{
    let ghost v = views(a@);
    let mut i: usize = 0;
    assert(v.subrange(0, 0).len() == 0);
    while i < a.len()
        invariant
            v == views(a@),
            i <= a@.len(),
            first_index(v.subrange(0, i as int), x@) == -1,
        decreases a@.len() - i,
    {
        assert(v.subrange(0, i + 1).drop_last() =~= v.subrange(0, i as int));
        if str_eq(a[i].as_str(), x) {
            proof {
                lemma_first_index_prefix(v, x@, i + 1);
            }
            return Some(i);
        }
        i = i + 1;
    }
    assert(v.subrange(0, i as int) =~= v);
    None
}

/// A copy of the strings `a[from..to]`.
fn clone_range(a: &Vec<String>, from: usize, to: usize) -> (r: Vec<String>)
    requires
        from <= to <= a@.len(),
    ensures
        views(r@) == views(a@).subrange(from as int, to as int),
{
    let mut r: Vec<String> = Vec::new();
    let mut i: usize = from;
    while i < to
        invariant
            from <= i <= to <= a@.len(),
            views(r@) == views(a@).subrange(from as int, i as int),
        decreases to - i,
    {
        let ghost before = r@;
        r.push(a[i].clone());
        assert(views(r@) =~= views(before).push(a@[i as int]@));
        assert(views(a@).subrange(from as int, i + 1) =~= views(a@).subrange(from as int, i as int).push(a@[i as int]@));
        i = i + 1;
    }
    r
}

/// Append copies of the strings of `b` to `a`.
pub(crate) fn append_all(a: &mut Vec<String>, b: &Vec<String>)
    ensures
        views(final(a)@) == views(old(a)@) + views(b@),
{
    let mut i: usize = 0;
    while i < b.len()
        invariant
            i <= b@.len(),
            views(a@) == views(old(a)@) + views(b@).subrange(0, i as int),
        decreases b@.len() - i,
    {
        let ghost before = a@;
        a.push(b[i].clone());
        assert(views(a@) =~= views(before).push(b@[i as int]@));
        assert(views(b@).subrange(0, i + 1) =~= views(b@).subrange(0, i as int).push(b@[i as int]@));
        i = i + 1;
    }
    assert(views(b@).subrange(0, i as int) =~= views(b@));
}

fn strs_to_strings(b: &[&str]) -> (r: Vec<String>)
    ensures
        views(r@) == b@.map_values(|s: &str| s@),
{
    let mut r: Vec<String> = Vec::new();
    let mut i: usize = 0;
    while i < b.len()
        invariant
            i <= b@.len(),
            views(r@) == b@.map_values(|s: &str| s@).subrange(0, i as int),
        decreases b@.len() - i,
    {
        let ghost before = r@;
        r.push(b[i].to_owned());
        assert(views(r@) =~= views(before).push(b@[i as int]@));
        assert(b@.map_values(|s: &str| s@).subrange(0, i + 1) =~= b@.map_values(|s: &str| s@).subrange(0, i as int).push(b@[i as int]@));
        i = i + 1;
    }
    assert(b@.map_values(|s: &str| s@).subrange(0, i as int) =~= b@.map_values(|s: &str| s@));
    r
}

/// Whether a command keyword is a cargo subcommand that the tool passes on.
pub fn is_cargo_command(command: &str) -> (r: bool)
    ensures
        r == cargo_commands().contains(command@),
{
    let known = vec![
        "bench",
        "build",
        "build-debug",
        "check",
        "clean",
        "clippy",
        "fmt",
        "install",
        "locate-project",
        "metadata",
        "pkgid",
        "run",
        "run-debug",
        "tree",
        "test",
        "verify-project",
    ];
    assert(known@.map_values(|s: &str| s@) =~= cargo_commands());
    let mut i: usize = 0;
    while i < known.len()
        invariant
            known@.map_values(|s: &str| s@) == cargo_commands(),
            i <= known@.len(),
            forall|j: int| 0 <= j < i ==> cargo_commands()[j] != command@,
        decreases known@.len() - i,
    {
        assert(cargo_commands()[i as int] == known@[i as int]@);
        if str_eq(known[i], command) {
            return true;
        }
        i = i + 1;
    }
    false
}

impl DefaultAction {
    pub fn new(target: &str) -> (r: Self)
        ensures
            r.target@ == target@,
            r.args@.len() == 0,
    {
        DefaultAction { target: target.to_owned(), args: Vec::new() }
    }

    pub fn with_args(self, args: &[&str]) -> (r: Self)
        ensures
            r.target == self.target,
            views(r.args@) == views(self.args@) + args@.map_values(|s: &str| s@),
    {
        let mut s = self;
        let extra = strs_to_strings(args);
        append_all(&mut s.args, &extra);
        s
    }

    pub fn into_args(self) -> (r: Args)
        ensures
            r == Args::DefaultAction(self),
    {
        Args::DefaultAction(self)
    }
}

impl CargoCall {
    pub fn new(command: &str, target: &str) -> (r: Self)
        ensures
            r.command@ == command@,
            r.target@ == target@,
            r.args@.len() == 0,
    {
        CargoCall { command: command.to_owned(), target: target.to_owned(), args: Vec::new() }
    }

    pub fn with_args(self, args: &[&str]) -> (r: Self)
        ensures
            r.command == self.command,
            r.target == self.target,
            views(r.args@) == views(self.args@) + args@.map_values(|s: &str| s@),
    {
        let mut s = self;
        let extra = strs_to_strings(args);
        append_all(&mut s.args, &extra);
        s
    }

    /// Split the arguments into those for cargo and those for the script.
    fn split_args(&self) -> (r: (Vec<String>, Vec<String>))
        ensures
            (views(r.0@), views(r.1@)) == split_spec(self.command@, views(self.args@)),
    {
        let n = self.args.len();
        if !str_eq(self.command.as_str(), "run") {
            return (clone_range(&self.args, 0, n), Vec::new());
        }
        proof {
            lemma_first_index_range(views(self.args@), "--"@);
        }
        match find_arg(&self.args, "--") {
            Some(p) => (clone_range(&self.args, 0, p), clone_range(&self.args, p + 1, n)),
            None => (Vec::new(), clone_range(&self.args, 0, n)),
        }
    }

    /// Normalize the arguments: add `--release` where asked, put the script
    /// arguments after a `--`, and map the debug forms to their base command.
    fn normalize(self) -> (r: Self)
        ensures
            r.command@ == base_command(self.command@),
            r.target == self.target,
            views(r.args@) == normalized_args(self.command@, views(self.args@)),
    {
        let (cargo_args, command_args) = self.split_args();
        let mut cargo_args = cargo_args;
        if str_eq(self.command.as_str(), "build") || str_eq(self.command.as_str(), "run") {
            let ghost before = cargo_args@;
            cargo_args.push("--release".to_owned());
            assert(views(cargo_args@) =~= views(before).push("--release"@));
        }
        let args = if command_args.len() == 0 {
            cargo_args
        } else {
            let mut new_args = cargo_args;
            let ghost before = new_args@;
            new_args.push("--".to_owned());
            assert(views(new_args@) =~= views(before).push("--"@));
            append_all(&mut new_args, &command_args);
            new_args
        };
        let command = if str_eq(self.command.as_str(), "build-debug") {
            "build".to_owned()
        } else if str_eq(self.command.as_str(), "run-debug") {
            "run".to_owned()
        } else {
            self.command
        };
        CargoCall { command, target: self.target, args }
    }

    pub fn into_args(self) -> (r: Args)
        ensures
            r@ == cargo_action(self.command@, self.target@, views(self.args@)),
            match r {
                Args::BuildCargoCall(c) | Args::InstallCargoCall(c) | Args::GenericCargoCall(c) => c == self,
                _ => false,
            },
    {
        if str_eq(self.command.as_str(), "build") {
            Args::BuildCargoCall(self)
        } else if str_eq(self.command.as_str(), "install") {
            Args::InstallCargoCall(self)
        } else {
            Args::GenericCargoCall(self)
        }
    }
}

/// Resolve a command line into the action it asks for.
///
/// The first argument must be the tool's name. Where the second has a file
/// extension it is the script and the action is the default action, with
/// the rest of the arguments; otherwise it is a command keyword.
pub fn parse_args(args: &Vec<String>) -> (r: Result<Args, UsageError>)
    ensures
        match parse_spec(views(args@)) {
            Ok(c) => r is Ok && r->Ok_0@ == c,
            Err(e) => r is Err && r->Err_0@ == e,
        },
{
    let ghost a = views(args@);
    let n = args.len();
    if n < 2 {
        return Err(UsageError::TooFewArguments);
    }
    assert(a[0] == args@[0]@ && a[1] == args@[1]@);
    if !str_eq(args[0].as_str(), "wop") {
        return Err(UsageError::NotWop);
    }
    if has_extension(args[1].as_str()) {
        let rest = clone_range(args, 2, n);
        return Ok(Args::DefaultAction(DefaultAction { target: args[1].clone(), args: rest }));
    }
    let command = args[1].as_str();
    let ghost rest = a.subrange(2, n as int);
    if str_eq(command, "manifest") || str_eq(command, "write-manifest") {
        if n != 3 {
            return Err(UsageError::ManifestArguments);
        }
        assert(rest[0] == args@[2]@);
        let target = args[2].clone();
        if str_eq(command, "manifest") {
            return Ok(Args::Manifest(target));
        } else {
            return Ok(Args::WriteManifest(target));
        }
    }
    if str_eq(command, "help") || str_eq(command, "--help") {
        if n != 2 {
            return Err(UsageError::HelpArguments);
        }
        return Ok(Args::Help);
    }
    if str_eq(command, "new") {
        if n == 2 {
            return Ok(Args::ListTemplates);
        } else if n == 4 {
            assert(rest[0] == args@[2]@ && rest[1] == args@[3]@);
            return Ok(Args::New(args[2].clone(), args[3].clone()));
        } else {
            return Err(UsageError::NewArguments);
        }
    }
    if is_cargo_command(command) {
        if n == 2 {
            return Err(UsageError::MissingTarget);
        }
        assert(rest[0] == args@[2]@);
        let call_args = clone_range(args, 3, n);
        assert(rest.subrange(1, rest.len() as int) =~= a.subrange(3, n as int));
        let call = CargoCall { command: args[1].clone(), target: args[2].clone(), args: call_args };
        let call = call.normalize();
        return Ok(call.into_args());
    }
    Err(UsageError::UnknownCommand(args[1].clone()))
}

/// The one item of a list that holds exactly one.
pub fn single<T>(items: Vec<T>) -> (r: T)
    requires
        items@.len() == 1,
    ensures
        r == items@[0],
{
    let mut items = items;
    items.pop().unwrap()
}

/// The arguments of the cargo process for a call on the project whose
/// manifest is at `manifest_path`: the subcommand, the manifest path, the
/// extra arguments, then the call's arguments.
pub fn cargo_call_args(call: &CargoCall, manifest_path: &str, extra_args: &[&str]) -> (r: Vec<String>)
    ensures
        views(r@) == seq![call.command@, "--manifest-path"@, manifest_path@] + extra_args@.map_values(
            |s: &str| s@,
        ) + views(call.args@),
{
    let mut r: Vec<String> = Vec::new();
    r.push(call.command.clone());
    r.push("--manifest-path".to_owned());
    r.push(manifest_path.to_owned());
    assert(views(r@) =~= seq![call.command@, "--manifest-path"@, manifest_path@]);
    let extra = strs_to_strings(extra_args);
    append_all(&mut r, &extra);
    append_all(&mut r, &call.args);
    r
}

/// The arguments of the cargo process for an install call, which is given
/// the project directory rather than the manifest.
pub fn install_call_args(call: &CargoCall, manifest_dir: &str) -> (r: Vec<String>)
    ensures
        views(r@) == seq![call.command@, "--path"@, manifest_dir@] + views(call.args@),
{
    let mut r: Vec<String> = Vec::new();
    r.push(call.command.clone());
    r.push("--path".to_owned());
    r.push(manifest_dir.to_owned());
    assert(views(r@) =~= seq![call.command@, "--path"@, manifest_dir@]);
    append_all(&mut r, &call.args);
    r
}

} // verus!
