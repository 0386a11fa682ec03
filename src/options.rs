//! The tool's own section of a descriptor: the artifact filter and the
//! default action.
use vstd::prelude::*;

use crate::args::views;
use crate::document::{entries_of, items_of, lemma_views, lookup, node_get, Entries, Node, Tree};

verus! {

broadcast use vstd::std_specs::vec::group_vec_axioms;

/// The options of a script.
#[derive(Debug, PartialEq)]
pub struct ProjectOptions {
    /// Rename or skip build artifacts: an empty destination skips. Read as a
    /// map: of two entries for one source, the later one holds.
    pub filter: Vec<(String, String)>,
    /// The command line to use where the script is run without a command.
    pub default_action: Option<Vec<String>>,
}

/// Why the tool's section could not be read.
#[derive(Debug, PartialEq)]
pub enum OptionsError {
    /// The filter is not a table.
    FilterNotTable,
    /// The destination for the given source is not a string.
    InvalidDestination(String),
    /// The default action is not an array.
    DefaultActionNotArray,
    /// An entry of the default action is not a string.
    DefaultActionNotString,
}

/// The model of `ProjectOptions`.
pub struct Options {
    pub filter: Seq<(Seq<char>, Seq<char>)>,
    pub default_action: Option<Seq<Seq<char>>>,
}

/// The model of `OptionsError`.
pub enum OptionsFault {
    FilterNotTable,
    InvalidDestination(Seq<char>),
    DefaultActionNotArray,
    DefaultActionNotString,
}

pub open spec fn filter_view(f: Seq<(String, String)>) -> Seq<(Seq<char>, Seq<char>)> {
    f.map_values(|e: (String, String)| (e.0@, e.1@))
}

impl View for ProjectOptions {
    type V = Options;

    open spec fn view(&self) -> Options {
        Options {
            filter: filter_view(self.filter@),
            default_action: match &self.default_action {
                Some(d) => Some(views(d@)),
                None => None,
            },
        }
    }
}

impl View for OptionsError {
    type V = OptionsFault;

    open spec fn view(&self) -> OptionsFault {
        match self {
            OptionsError::FilterNotTable => OptionsFault::FilterNotTable,
            OptionsError::InvalidDestination(s) => OptionsFault::InvalidDestination(s@),
            OptionsError::DefaultActionNotArray => OptionsFault::DefaultActionNotArray,
            OptionsError::DefaultActionNotString => OptionsFault::DefaultActionNotString,
        }
    }
}

/// The filter that a table denotes: every destination must be a string.
pub open spec fn filter_spec(t: Entries) -> Result<Seq<(Seq<char>, Seq<char>)>, OptionsFault>
    decreases t.len(),
{
    if t.len() == 0 {
        Ok(Seq::empty())
    } else {
        match filter_spec(t.drop_last()) {
            Err(e) => Err(e),
            Ok(a) => match t.last().1 {
                Tree::Str(d) => Ok(a.push((t.last().0, d))),
                _ => Err(OptionsFault::InvalidDestination(t.last().0)),
            },
        }
    }
}

/// The strings of an array: every item must be a string.
pub open spec fn strings_spec(items: Seq<Tree>) -> Result<Seq<Seq<char>>, OptionsFault>
    decreases items.len(),
{
    if items.len() == 0 {
        Ok(Seq::empty())
    } else {
        match strings_spec(items.drop_last()) {
            Err(e) => Err(e),
            Ok(a) => match items.last() {
                Tree::Str(s) => Ok(a.push(s)),
                _ => Err(OptionsFault::DefaultActionNotString),
            },
        }
    }
}

/// The options that a manifest configures in its section `cargo-wop`.
pub open spec fn options_spec(manifest: Tree) -> Result<Options, OptionsFault> {
    match lookup(manifest, "cargo-wop"@) {
        None => Ok(Options { filter: Seq::empty(), default_action: None }),
        Some(section) => {
            let f = match lookup(section, "filter"@) {
                None => Ok(Seq::empty()),
                Some(Tree::Table(t)) => filter_spec(t),
                Some(_) => Err(OptionsFault::FilterNotTable),
            };
            match f {
                Err(e) => Err(e),
                Ok(f) => match lookup(section, "default-action"@) {
                    None => Ok(Options { filter: f, default_action: None }),
                    Some(Tree::Array(items)) => match strings_spec(items) {
                        Ok(d) => Ok(Options { filter: f, default_action: Some(d) }),
                        Err(e) => Err(e),
                    },
                    Some(_) => Err(OptionsFault::DefaultActionNotArray),
                },
            }
        },
    }
}

fn read_filter(t: &Vec<(String, Node)>) -> (r: Result<Vec<(String, String)>, OptionsError>)
    ensures
        match filter_spec(entries_of(t@)) {
            Ok(f) => r is Ok && filter_view(r->Ok_0@) == f,
            Err(e) => r is Err && r->Err_0@ == e,
        },
{
    let ghost model = entries_of(t@);
    let mut out: Vec<(String, String)> = Vec::new();
    let mut i: usize = 0;
    assert(model.subrange(0, 0) =~= Seq::<(Seq<char>, Tree)>::empty());
    assert(filter_view(out@) =~= Seq::<(Seq<char>, Seq<char>)>::empty());
    while i < t.len()
        invariant
            model == entries_of(t@),
            i <= t@.len(),
            filter_spec(model.subrange(0, i as int)) == Ok::<Seq<(Seq<char>, Seq<char>)>, OptionsFault>(filter_view(out@)),
        decreases t@.len() - i,
    {
        assert(model.subrange(0, i + 1).drop_last() =~= model.subrange(0, i as int));
        assert(model.subrange(0, i + 1).last() == (t@[i as int].0@, t@[i as int].1@));
        proof {
            lemma_views(t@[i as int].1);
        }
        match &t[i].1 {
            Node::Str(d) => {
                let ghost before = out@;
                out.push((t[i].0.clone(), d.clone()));
                assert(filter_view(out@) =~= filter_view(before).push((t@[i as int].0@, d@)));
            },
            _ => {
                proof {
                    lemma_filter_err(model, i + 1);
                }
                return Err(OptionsError::InvalidDestination(t[i].0.clone()));
            },
        }
        i = i + 1;
    }
    assert(model.subrange(0, i as int) =~= model);
    Ok(out)
}

proof fn lemma_filter_err(t: Entries, k: int)
    requires
        0 <= k <= t.len(),
        filter_spec(t.subrange(0, k)) is Err,
    ensures
        filter_spec(t) == filter_spec(t.subrange(0, k)),
    decreases t.len() - k,
{
    if k < t.len() {
        assert(t.subrange(0, k + 1).drop_last() =~= t.subrange(0, k));
        lemma_filter_err(t, k + 1);
    } else {
        assert(t.subrange(0, k) =~= t);
    }
}

proof fn lemma_strings_err(items: Seq<Tree>, k: int)
    requires
        0 <= k <= items.len(),
        strings_spec(items.subrange(0, k)) is Err,
    ensures
        strings_spec(items) == strings_spec(items.subrange(0, k)),
    decreases items.len() - k,
{
    if k < items.len() {
        assert(items.subrange(0, k + 1).drop_last() =~= items.subrange(0, k));
        lemma_strings_err(items, k + 1);
    } else {
        assert(items.subrange(0, k) =~= items);
    }
}

fn read_strings(items: &Vec<Node>) -> (r: Result<Vec<String>, OptionsError>)
    ensures
        match strings_spec(items_of(items@)) {
            Ok(d) => r is Ok && views(r->Ok_0@) == d,
            Err(e) => r is Err && r->Err_0@ == e,
        },
{
    let ghost model = items_of(items@);
    let mut out: Vec<String> = Vec::new();
    let mut i: usize = 0;
    assert(model.subrange(0, 0) =~= Seq::<Tree>::empty());
    assert(views(out@) =~= Seq::<Seq<char>>::empty());
    while i < items.len()
        invariant
            model == items_of(items@),
            i <= items@.len(),
            strings_spec(model.subrange(0, i as int)) == Ok::<Seq<Seq<char>>, OptionsFault>(views(out@)),
        decreases items@.len() - i,
    {
        assert(model.subrange(0, i + 1).drop_last() =~= model.subrange(0, i as int));
        assert(model.subrange(0, i + 1).last() == items@[i as int]@);
        proof {
            lemma_views(items@[i as int]);
        }
        match &items[i] {
            Node::Str(s) => {
                let ghost before = out@;
                out.push(s.clone());
                assert(views(out@) =~= views(before).push(s@));
            },
            _ => {
                proof {
                    lemma_strings_err(model, i + 1);
                }
                return Err(OptionsError::DefaultActionNotString);
            },
        }
        i = i + 1;
    }
    assert(model.subrange(0, i as int) =~= model);
    Ok(out)
}

/// Read the tool's section `cargo-wop` of a manifest: the filter (a table of
/// source file name to destination file name) and the default action (an
/// array of strings). A manifest without that section has no filter and no
/// default action.
pub fn parse_custom_section(manifest: &Node) -> (r: Result<ProjectOptions, OptionsError>)
    ensures
        match options_spec(manifest@) {
            Ok(o) => r is Ok && r->Ok_0@ == o,
            Err(e) => r is Err && r->Err_0@ == e,
        },
{
    let section = match node_get(manifest, "cargo-wop") {
        None => {
            let r = ProjectOptions { filter: Vec::new(), default_action: None };
            assert(r@.filter =~= Seq::<(Seq<char>, Seq<char>)>::empty());
            return Ok(r);
        },
        Some(s) => s,
    };
    let filter = match node_get(section, "filter") {
        None => {
            let v: Vec<(String, String)> = Vec::new();
            assert(filter_view(v@) =~= Seq::<(Seq<char>, Seq<char>)>::empty());
            v
        },
        Some(f) => {
            proof {
                lemma_views(*f);
            }
            match f {
                Node::Table(t) => match read_filter(t) {
                    Ok(x) => x,
                    Err(e) => {
                        return Err(e);
                    },
                },
                _ => {
                    return Err(OptionsError::FilterNotTable);
                },
            }
        },
    };
    let default_action = match node_get(section, "default-action") {
        None => None,
        Some(d) => {
            proof {
                lemma_views(*d);
            }
            match d {
                Node::Array(items) => match read_strings(items) {
                    Ok(x) => Some(x),
                    Err(e) => {
                        return Err(e);
                    },
                },
                _ => {
                    return Err(OptionsError::DefaultActionNotArray);
                },
            }
        },
    };
    Ok(ProjectOptions { filter, default_action })
}

} // verus!
