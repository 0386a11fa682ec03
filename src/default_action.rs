//! The default action: the command line that the descriptor configures for
//! a script run without a command, resolved once more.
use vstd::prelude::*;

use crate::args::{append_all, parse_args, parse_spec, views, Args, Command, DefaultAction, UsageError};
use crate::text::{chars_of, string_of};

verus! {

/// Why the default action could not be resolved.
#[derive(Debug, PartialEq)]
pub enum DefaultActionError {
    /// The synthesized command line is not valid.
    Usage(UsageError),
    /// The synthesized command line resolves to the default action again.
    Recursion,
}

/// The command line of a default action: the tool's name, the configured
/// command (`run` where none is configured), the arguments given, and the
/// script inserted as the third argument.
pub open spec fn merged_args(target: Seq<char>, args: Seq<Seq<char>>, default: Option<Seq<Seq<char>>>) -> Seq<Seq<char>> {
    let base = seq!["wop"@] + match default {
        Some(d) => d,
        None => seq!["run"@],
    } + args;
    if base.len() >= 2 {
        base.insert(2, target)
    } else {
        base.push(target)
    }
}

/// Arguments separated by single spaces.
pub open spec fn spaced(a: Seq<Seq<char>>) -> Seq<char>
    decreases a.len(),
{
    if a.len() == 0 {
        Seq::empty()
    } else if a.len() == 1 {
        a[0]
    } else {
        spaced(a.drop_last()) + seq![' '] + a.last()
    }
}

/// Build the command line of a default action.
pub fn merge_default_args(call: &DefaultAction, default_action: &Option<Vec<String>>) -> (r: Vec<String>)
    ensures
        views(r@) == merged_args(
            call.target@,
            views(call.args@),
            match default_action {
                Some(d) => Some(views(d@)),
                None => None,
            },
        ),
{
    let mut full: Vec<String> = Vec::new();
    full.push("wop".to_owned());
    let ghost first = views(full@);
    assert(first =~= seq!["wop"@]);
    match default_action {
        Some(d) => {
            append_all(&mut full, d);
        },
        None => {
            full.push("run".to_owned());
            assert(views(full@) =~= first + seq!["run"@]);
        },
    }
    append_all(&mut full, &call.args);
    let ghost base = views(full@);
    let n = full.len();
    if n >= 2 {
        full.insert(2, call.target.clone());
        assert(views(full@) =~= base.insert(2, call.target@));
    } else {
        full.push(call.target.clone());
        assert(views(full@) =~= base.push(call.target@));
    }
    full
}

/// Write a command line with its arguments separated by spaces.
pub fn format_default_args(args: &Vec<String>) -> (r: String)
    ensures
        r@ == spaced(views(args@)),
{
    let ghost a = views(args@);
    let mut res: Vec<char> = Vec::new();
    let mut i: usize = 0;
    assert(a.subrange(0, 0) =~= Seq::<Seq<char>>::empty());
    while i < args.len()
        invariant
            a == views(args@),
            i <= args@.len(),
            res@ == spaced(a.subrange(0, i as int)),
        decreases args@.len() - i,
    {
        let ghost before = res@;
        let s = chars_of(args[i].as_str());
        if i != 0 {
            res.push(' ');
        }
        let ghost mid = res@;
        let mut j: usize = 0;
        while j < s.len()
            invariant
                j <= s@.len(),
                res@ == mid + s@.subrange(0, j as int),
            decreases s@.len() - j,
        {
            res.push(s[j]);
            j = j + 1;
        }
        assert(s@.subrange(0, s@.len() as int) =~= s@);
        assert(a.subrange(0, i + 1).drop_last() =~= a.subrange(0, i as int));
        if i == 0 {
            assert(res@ =~= spaced(a.subrange(0, 1)));
        } else {
            assert(res@ =~= spaced(a.subrange(0, i as int)) + seq![' '] + a[i as int]);
        }
        i = i + 1;
    }
    assert(a.subrange(0, i as int) =~= a);
    string_of(res.as_slice())
}

/// Resolve a default action: its command line is built and parsed once
/// more, and must resolve to another action than the default action, so
/// that the expansion never recurses.
pub fn resolve_default_action(call: &DefaultAction, default_action: &Option<Vec<String>>) -> (r: Result<Args, DefaultActionError>)
    ensures
        ({
            let m = merged_args(
                call.target@,
                views(call.args@),
                match default_action {
                    Some(d) => Some(views(d@)),
                    None => None,
                },
            );
            match parse_spec(m) {
                Ok(Command::DefaultAction(_, _)) => r == Err::<Args, DefaultActionError>(DefaultActionError::Recursion),
                Ok(c) => r is Ok && r->Ok_0@ == c,
                Err(e) => r matches Err(DefaultActionError::Usage(u)) && u@ == e,
            }
        }),
        r is Ok ==> !(r->Ok_0 is DefaultAction),
{
    let merged = merge_default_args(call, default_action);
    match parse_args(&merged) {
        Ok(Args::DefaultAction(_)) => Err(DefaultActionError::Recursion),
        Ok(a) => Ok(a),
        Err(e) => Err(DefaultActionError::Usage(e)),
    }
}

} // verus!
