//! Normalization of an embedded descriptor into a standalone manifest.
use vstd::prelude::*;

use crate::document::{
    items_of,
    entries_of, get, has_key, insert, key_pos, lemma_key_pos_range, lemma_views, remove,
    lemma_insert, table_find, table_insert, table_put_back, table_remove, table_take, Entries, Node,
    Tree,
};
use crate::env::ExecutionEnv;
use crate::paths::{file_stem, parent, path_parent, path_stem};
use crate::rules::{apply_rule, apply_rules};
use crate::traverse::{normalize_node, rewrite, segs, NormalizeError, NormalizeFault};

verus! {

broadcast use vstd::std_specs::vec::group_vec_axioms;

/// The path rules: for each path-valued field of a manifest, the keys that
/// lead to it, an empty key standing for every item or value.
pub open spec fn path_rules() -> Seq<Seq<Seq<char>>> {
    seq![
        seq!["lib"@, "path"@],
        seq!["bin"@, ""@, "path"@],
        seq!["example"@, ""@, "path"@],
        seq!["test"@, ""@, "path"@],
        seq!["bench"@, ""@, "path"@],
        seq!["package"@, "build"@],
        seq!["dependencies"@, ""@, "path"@],
        seq!["dev-dependencies"@, ""@, "path"@],
        seq!["build-dependencies"@, ""@, "path"@],
        seq!["patch"@, ""@, ""@, "path"@],
        seq!["target"@, ""@, "dependencies"@, ""@, "path"@],
    ]
}

fn path_rules_exec() -> (r: Vec<Vec<&'static str>>)
    ensures
        r@.len() == path_rules().len(),
        forall|i: int| 0 <= i < r@.len() ==> segs(#[trigger] r@[i]@) == path_rules()[i],
        forall|i: int| 0 <= i < r@.len() ==> 2 <= (#[trigger] r@[i]@).len() <= 5,
{
    let r = vec![
        vec!["lib", "path"],
        vec!["bin", "", "path"],
        vec!["example", "", "path"],
        vec!["test", "", "path"],
        vec!["bench", "", "path"],
        vec!["package", "build"],
        vec!["dependencies", "", "path"],
        vec!["dev-dependencies", "", "path"],
        vec!["build-dependencies", "", "path"],
        vec!["patch", "", "", "path"],
        vec!["target", "", "dependencies", "", "path"],
    ];
    assert forall|i: int| 0 <= i < r@.len() implies segs(#[trigger] r@[i]@) == path_rules()[i] by {
        assert(segs(r@[i]@) =~= path_rules()[i]);
    }
    r
}

/// Apply one rule to the root table.
fn normalize_rule<E: ExecutionEnv>(root: &mut Vec<(String, Node)>, rule: &Vec<&str>, dir: &str, env: &E) -> (r: Result<(), NormalizeError>)
    requires
        2 <= rule@.len(),
    ensures
        match apply_rule(entries_of(old(root)@), segs(rule@), dir@, env) {
            Ok(e) => r is Ok && entries_of(final(root)@) == e,
            Err(e) => r is Err && r->Err_0@ == e,
        },
{
    let head = rule[0];
    assert(segs(rule@)[0] == head@);
    proof {
        lemma_key_pos_range(entries_of(root@), head@);
    }
    match table_find(root, head) {
        None => Ok(()),
        Some(p) => {
            let ghost before = root@;
            let (k, c) = root.remove(p);
            assert(entries_of(before)[p as int] == (k@, c@));
            match normalize_node(c, rule, 1, dir, env) {
                Ok(c2) => {
                    let ghost kv = k@;
                    let ghost cv = c2@;
                    root.insert(p, (k, c2));
                    assert(entries_of(root@) =~= entries_of(before).update(p as int, (kv, cv)));
                    Ok(())
                },
                Err(e) => Err(e),
            }
        },
    }
}

/// Read every path-valued field of the manifest relative to `dir` and
/// resolve it in the environment, rule by rule in the order of
/// `path_rules`; a section that no rule names is left as it is.
pub fn normalize_paths<E: ExecutionEnv>(root: &mut Vec<(String, Node)>, dir: &str, env: &E) -> (r: Result<(), NormalizeError>)
    ensures
        match apply_rules(entries_of(old(root)@), path_rules(), dir@, env) {
            Ok(e) => r is Ok && entries_of(final(root)@) == e,
            Err(e) => r is Err && r->Err_0@ == e,
        },
{
    let rules = path_rules_exec();
    let ghost start = entries_of(root@);
    let mut i: usize = 0;
    assert(path_rules().subrange(0, 0).len() == 0);
    while i < rules.len()
        invariant
            rules@.len() == path_rules().len(),
            forall|j: int| 0 <= j < rules@.len() ==> segs(#[trigger] rules@[j]@) == path_rules()[j],
            forall|j: int| 0 <= j < rules@.len() ==> 2 <= (#[trigger] rules@[j]@).len() <= 5,
            i <= rules@.len(),
            start == entries_of(old(root)@),
            apply_rules(start, path_rules().subrange(0, i as int), dir@, env) == Ok::<Entries, NormalizeFault>(entries_of(root@)),
        decreases rules@.len() - i,
    {
        let ghost cur = entries_of(root@);
        assert(path_rules().subrange(0, i + 1).drop_last() =~= path_rules().subrange(0, i as int));
        assert(path_rules().subrange(0, i + 1).last() == segs(rules@[i as int]@));
        let rule = &rules[i];
        match normalize_rule(root, rule, dir, env) {
            Ok(()) => {},
            Err(e) => {
                assert(apply_rule(cur, segs(rule@), dir@, env) == Err::<Entries, NormalizeFault>(e@));
                assert(apply_rules(start, path_rules().subrange(0, i + 1), dir@, env) == Err::<Entries, NormalizeFault>(e@));
                proof {
                    lemma_rules_err(start, path_rules(), i + 1, dir@, env);
                }
                return Err(e);
            },
        }
        i = i + 1;
    }
    assert(path_rules().subrange(0, i as int) =~= path_rules());
    Ok(())
}

proof fn lemma_rules_err<E: ExecutionEnv>(t: Entries, rules: Seq<Seq<Seq<char>>>, k: int, dir: Seq<char>, env: &E)
    requires
        0 <= k <= rules.len(),
        apply_rules(t, rules.subrange(0, k), dir, env) is Err,
    ensures
        apply_rules(t, rules, dir, env) == apply_rules(t, rules.subrange(0, k), dir, env),
    decreases rules.len() - k,
{
    if k < rules.len() {
        assert(rules.subrange(0, k + 1).drop_last() =~= rules.subrange(0, k));
        lemma_rules_err(t, rules, k + 1, dir, env);
    } else {
        assert(rules.subrange(0, k) =~= rules);
    }
}

/// `t` with `v` under key `k` where that key is absent; unchanged otherwise.
pub open spec fn fill(t: Entries, k: Seq<char>, v: Tree) -> Entries {
    if has_key(t, k) {
        t
    } else {
        insert(t, k, v)
    }
}

pub open spec fn empty_table() -> Tree {
    Tree::Table(Seq::empty())
}

/// The package section completed with a name, a version and an edition,
/// where they are absent.
pub open spec fn ensure_package(t: Entries, name: Seq<char>) -> Result<Entries, NormalizeFault> {
    let t1 = fill(t, "package"@, empty_table());
    match get(t1, "package"@) {
        Some(Tree::Table(pk)) => {
            let pk1 = fill(pk, "name"@, Tree::Str(name));
            let pk2 = fill(pk1, "version"@, Tree::Str("0.1.0"@));
            let pk3 = fill(pk2, "edition"@, Tree::Str("2018"@));
            Ok(insert(t1, "package"@, Tree::Table(pk3)))
        },
        _ => Err(NormalizeFault::PackageNotTable),
    }
}

/// At least one target: where there is neither a library nor a non-empty
/// array of binaries, one binary with no settings.
pub open spec fn ensure_target(t: Entries) -> Result<Entries, NormalizeFault> {
    let bin = get(t, "bin"@);
    if bin is Some && !(bin->Some_0 is Array) {
        Err(NormalizeFault::BinNotArray)
    } else if has_key(t, "lib"@) || (bin is Some && bin->Some_0->Array_0.len() > 0) {
        Ok(t)
    } else {
        Ok(insert(t, "bin"@, Tree::Array(seq![empty_table()])))
    }
}

/// A target pointed at the script, and named after it where it has no name.
pub open spec fn patched_target(v: Tree, path: Seq<char>, name: Seq<char>) -> Result<Tree, NormalizeFault> {
    match v {
        Tree::Table(t) => Ok(Tree::Table(fill(insert(t, "path"@, Tree::Str(path)), "name"@, Tree::Str(name)))),
        _ => Err(NormalizeFault::TargetNotTable),
    }
}

/// Each target of an array patched, the first error winning.
pub open spec fn patched_targets(items: Seq<Tree>, path: Seq<char>, name: Seq<char>) -> Result<Seq<Tree>, NormalizeFault>
    decreases items.len(),
{
    if items.len() == 0 {
        Ok(Seq::empty())
    } else {
        match patched_targets(items.drop_last(), path, name) {
            Err(e) => Err(e),
            Ok(a) => match patched_target(items.last(), path, name) {
                Err(e) => Err(e),
                Ok(b) => Ok(a.push(b)),
            },
        }
    }
}

/// The library and every binary patched.
pub open spec fn patched_all(t: Entries, path: Seq<char>, name: Seq<char>) -> Result<Entries, NormalizeFault> {
    let t1 = match get(t, "lib"@) {
        Some(lib) => match patched_target(lib, path, name) {
            Ok(l) => Ok(insert(t, "lib"@, l)),
            Err(e) => Err(e),
        },
        None => Ok(t),
    };
    match t1 {
        Err(e) => Err(e),
        Ok(t1) => match get(t1, "bin"@) {
            Some(Tree::Array(items)) => match patched_targets(items, path, name) {
                Ok(b) => Ok(insert(t1, "bin"@, Tree::Array(b))),
                Err(e) => Err(e),
            },
            Some(_) => Err(NormalizeFault::BinNotArray),
            None => Ok(t1),
        },
    }
}

/// The manifest that a descriptor normalizes to, for the script at
/// `target` in the environment `env`. The script is resolved once a target
/// is sure to exist, as patching the first target resolves it.
pub open spec fn normalized<E: ExecutionEnv>(doc: Tree, target: Seq<char>, env: &E) -> Result<Tree, NormalizeFault> {
    match (path_parent(target), path_stem(target)) {
        (None, _) => Err(NormalizeFault::NoParent),
        (_, None) => Err(NormalizeFault::NoStem),
        (Some(dir), Some(name)) => match doc {
            Tree::Table(t) => {
                let t1 = remove(t, "cargo-wop"@);
                match ensure_package(t1, name) {
                    Err(e) => Err(e),
                    Ok(t2) => match ensure_target(t2) {
                        Err(e) => Err(e),
                        Ok(t3) => match env.resolve(target) {
                            None => Err(NormalizeFault::Unresolvable(target)),
                            Some(resolved) => match patched_all(t3, resolved, name) {
                                Err(e) => Err(e),
                                Ok(t4) => match apply_rules(t4, path_rules(), dir, env) {
                                    Err(e) => Err(e),
                                    Ok(t5) => Ok(Tree::Table(t5)),
                                },
                            },
                        },
                    },
                }
            },
            _ => Err(NormalizeFault::NotTable),
        },
    }
}

fn fill_exec(t: &mut Vec<(String, Node)>, k: &str, v: Node)
    ensures
        entries_of(final(t)@) == fill(entries_of(old(t)@), k@, v@),
{
    if table_find(t, k).is_none() {
        table_insert(t, k.to_owned(), v);
    }
}

/// An empty table.
fn new_table() -> (r: Node)
    ensures
        r@ == empty_table(),
{
    let r = Node::Table(Vec::new());
    proof {
        lemma_views(r);
    }
    assert(r@->Table_0 =~= Seq::<(Seq<char>, Tree)>::empty());
    r
}

/// Complete the package section.
fn ensure_valid_package(root: &mut Vec<(String, Node)>, name: &str) -> (r: Result<(), NormalizeError>)
    ensures
        match ensure_package(entries_of(old(root)@), name@) {
            Ok(e) => r is Ok && entries_of(final(root)@) == e,
            Err(e) => r is Err && r->Err_0@ == e,
        },
{
    fill_exec(root, "package", new_table());
    let ghost t1 = root@;
    proof {
        lemma_insert(entries_of(old(root)@), "package"@, empty_table());
    }
    match table_take(root, "package") {
        None => Err(NormalizeError::PackageNotTable),
        Some((p, key, node)) => match node {
            Node::Table(pk) => {
                let mut pk = pk;
                proof {
                    lemma_views(Node::Table(pk));
                }
                fill_exec(&mut pk, "name", Node::Str(name.to_owned()));
                fill_exec(&mut pk, "version", Node::Str("0.1.0".to_owned()));
                fill_exec(&mut pk, "edition", Node::Str("2018".to_owned()));
                let n = Node::Table(pk);
                proof {
                    lemma_views(n);
                }
                table_put_back(root, p, key, n, Ghost(t1));
                Ok(())
            },
            _ => {
                proof {
                    lemma_views(node);
                }
                Err(NormalizeError::PackageNotTable)
            },
        },
    }
}

/// Make sure the manifest defines at least one target.
fn ensure_at_least_a_single_target(root: &mut Vec<(String, Node)>) -> (r: Result<(), NormalizeError>)
    ensures
        match ensure_target(entries_of(old(root)@)) {
            Ok(e) => r is Ok && entries_of(final(root)@) == e,
            Err(e) => r is Err && r->Err_0@ == e,
        },
{
    proof {
        lemma_key_pos_range(entries_of(root@), "bin"@);
    }
    let has_lib = table_find(root, "lib").is_some();
    let mut has_bin = false;
    match table_find(root, "bin") {
        Some(p) => {
            proof {
                lemma_views(root@[p as int].1);
            }
            assert(get(entries_of(root@), "bin"@) == Some(root@[p as int].1@));
            match &root[p].1 {
                Node::Array(a) => {
                    has_bin = a.len() > 0;
                },
                _ => {
                    return Err(NormalizeError::BinNotArray);
                },
            }
        },
        None => {},
    }
    if has_lib || has_bin {
        return Ok(());
    }
    let mut bins: Vec<Node> = Vec::new();
    bins.push(new_table());
    let n = Node::Array(bins);
    proof {
        lemma_views(n);
    }
    assert(n@->Array_0 =~= seq![empty_table()]);
    table_insert(root, "bin".to_owned(), n);
    Ok(())
}

/// Point a target at the script.
fn patch_target(target: Node, path: &str, name: &str) -> (r: Result<Node, NormalizeError>)
    ensures
        match patched_target(target@, path@, name@) {
            Ok(x) => r is Ok && r->Ok_0@ == x,
            Err(e) => r is Err && r->Err_0@ == e,
        },
{
    proof {
        lemma_views(target);
    }
    match target {
        Node::Table(t) => {
            let mut t = t;
            table_insert(&mut t, "path".to_owned(), Node::Str(path.to_owned()));
            fill_exec(&mut t, "name", Node::Str(name.to_owned()));
            let r = Node::Table(t);
            proof {
                lemma_views(r);
            }
            Ok(r)
        },
        _ => Err(NormalizeError::TargetNotTable),
    }
}

proof fn lemma_targets_err(items: Seq<Tree>, k: int, path: Seq<char>, name: Seq<char>)
    requires
        0 <= k <= items.len(),
        patched_targets(items.subrange(0, k), path, name) is Err,
    ensures
        patched_targets(items, path, name) == patched_targets(items.subrange(0, k), path, name),
    decreases items.len() - k,
{
    if k < items.len() {
        assert(items.subrange(0, k + 1).drop_last() =~= items.subrange(0, k));
        lemma_targets_err(items, k + 1, path, name);
    } else {
        assert(items.subrange(0, k) =~= items);
    }
}

/// Point each target of an array at the script.
fn patch_target_list(items: Vec<Node>, path: &str, name: &str) -> (r: Result<Vec<Node>, NormalizeError>)
    ensures
        match patched_targets(items_of(items@), path@, name@) {
            Ok(x) => r is Ok && items_of(r->Ok_0@) == x,
            Err(e) => r is Err && r->Err_0@ == e,
        },
{
    let ghost orig = items@;
    let ghost model = items_of(orig);
    let ghost items0 = items;
    let n = items.len();
    let mut rest = items;
    let mut out: Vec<Node> = Vec::new();
    let mut i: usize = 0;
    assert(model.subrange(0, 0) =~= Seq::<Tree>::empty());
    assert(items_of(out@) =~= Seq::<Tree>::empty());
    assert(rest@.subrange(0, n as int) =~= rest@);
    while i < n
        invariant
            n == orig.len(),
            model == items_of(orig),
            items0@ == orig,
            items0 == items,
            i <= n,
            rest@ == orig.subrange(i as int, n as int),
            patched_targets(model.subrange(0, i as int), path@, name@) == Ok::<Seq<Tree>, NormalizeFault>(items_of(out@)),
        decreases n - i,
    {
        let x = rest.remove(0);
        assert(x == orig[i as int]);
        assert(model.subrange(0, i + 1).drop_last() =~= model.subrange(0, i as int));
        assert(model.subrange(0, i + 1).last() == x@);
        match patch_target(x, path, name) {
            Ok(y) => {
                let ghost out_before = out@;
                out.push(y);
                assert(items_of(out@) =~= items_of(out_before).push(y@));
            },
            Err(e) => {
                proof {
                    lemma_targets_err(model, i + 1, path@, name@);
                }
                return Err(e);
            },
        }
        assert(rest@ =~= orig.subrange(i + 1, n as int));
        i = i + 1;
    }
    assert(model.subrange(0, n as int) =~= model);
    Ok(out)
}

/// Point the library and every binary at the script.
fn patch_all_targets(root: &mut Vec<(String, Node)>, path: &str, name: &str) -> (r: Result<(), NormalizeError>)
    ensures
        match patched_all(entries_of(old(root)@), path@, name@) {
            Ok(e) => r is Ok && entries_of(final(root)@) == e,
            Err(e) => r is Err && r->Err_0@ == e,
        },
{
    let ghost t0 = root@;
    match table_take(root, "lib") {
        None => {},
        Some((p, key, lib)) => {
            let l2 = patch_target(lib, path, name);
            match l2 {
                Ok(l2) => {
                    table_put_back(root, p, key, l2, Ghost(t0));
                },
                Err(e) => {
                    return Err(e);
                },
            }
        },
    }
    let ghost t1 = root@;
    match table_take(root, "bin") {
        None => Ok(()),
        Some((p, key, bins)) => {
            proof {
                lemma_views(bins);
            }
            match bins {
                Node::Array(items) => match patch_target_list(items, path, name) {
                    Ok(out) => {
                        let n = Node::Array(out);
                        proof {
                            lemma_views(n);
                        }
                        table_put_back(root, p, key, n, Ghost(t1));
                        Ok(())
                    },
                    Err(e) => Err(e),
                },
                _ => Err(NormalizeError::BinNotArray),
            }
        },
    }
}

/// Normalize the manifest embedded in the script at `target_path`, in the
/// environment `env`, so that it can build the script.
///
/// The tool's own section is stripped; the package section gets a name
/// (the script's file stem), a version and an edition where they are
/// absent; at least one target exists; each library and binary target
/// points at the script as the environment resolves it; and every
/// path-valued field is read relative to the script's directory and
/// resolved in the environment.
pub fn normalize_manifest<E: ExecutionEnv>(manifest: Node, target_path: &str, env: &E) -> (r: Result<Node, NormalizeError>)
    ensures
        match normalized(manifest@, target_path@, env) {
            Ok(x) => r is Ok && r->Ok_0@ == x,
            Err(e) => r is Err && r->Err_0@ == e,
        },
{
    let dir = match parent(target_path) {
        Some(d) => d,
        None => {
            return Err(NormalizeError::NoParent);
        },
    };
    let name = match file_stem(target_path) {
        Some(n) => n,
        None => {
            return Err(NormalizeError::NoStem);
        },
    };
    proof {
        lemma_views(manifest);
    }
    let mut root = match manifest {
        Node::Table(t) => t,
        _ => {
            return Err(NormalizeError::NotTable);
        },
    };
    let _ = table_remove(&mut root, "cargo-wop");
    match ensure_valid_package(&mut root, name.as_str()) {
        Ok(()) => {},
        Err(e) => {
            return Err(e);
        },
    }
    match ensure_at_least_a_single_target(&mut root) {
        Ok(()) => {},
        Err(e) => {
            return Err(e);
        },
    }
    let resolved = match env.normalize(target_path) {
        Ok(p) => p,
        Err(_) => {
            return Err(NormalizeError::Unresolvable(target_path.to_owned()));
        },
    };
    match patch_all_targets(&mut root, resolved.as_str(), name.as_str()) {
        Ok(()) => {},
        Err(e) => {
            return Err(e);
        },
    }
    match normalize_paths(&mut root, dir.as_str(), env) {
        Ok(()) => {},
        Err(e) => {
            return Err(e);
        },
    }
    let r = Node::Table(root);
    proof {
        lemma_views(r);
    }
    Ok(r)
}

} // verus!
