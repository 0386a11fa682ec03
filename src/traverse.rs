//! The path-rewriting traversal: a rule of keys, with wildcards, leads to
//! the path-valued fields that are read relative to a directory.
use vstd::prelude::*;

use crate::document::{
    entries_of, has_key, items_of, key_pos, lemma_key_pos_range, lemma_views, table_find, Entries,
    Node, Tree,
};
use crate::env::ExecutionEnv;
use crate::paths::{join, join_path};

verus! {

broadcast use vstd::std_specs::vec::group_vec_axioms;

/// Why a descriptor could not be normalized.
#[derive(Debug, PartialEq)]
pub enum NormalizeError {
    /// The environment cannot resolve the given path.
    Unresolvable(String),
    /// The target path has no parent directory.
    NoParent,
    /// The target path has no file stem.
    NoStem,
    /// The manifest is not a table.
    NotTable,
    /// The package section is not a table.
    PackageNotTable,
    /// The bin section is not an array.
    BinNotArray,
    /// A target section is not a table.
    TargetNotTable,
    /// An array where the path rule names a key.
    UnexpectedArray,
    /// A scalar where the path rule needs a container.
    InvalidValueType,
    /// A path field that is not a string.
    NonStringPath,
}

/// The model of `NormalizeError`.
pub enum NormalizeFault {
    Unresolvable(Seq<char>),
    NoParent,
    NoStem,
    NotTable,
    PackageNotTable,
    BinNotArray,
    TargetNotTable,
    UnexpectedArray,
    InvalidValueType,
    NonStringPath,
}

impl View for NormalizeError {
    type V = NormalizeFault;

    open spec fn view(&self) -> NormalizeFault {
        match self {
            NormalizeError::Unresolvable(p) => NormalizeFault::Unresolvable(p@),
            NormalizeError::NoParent => NormalizeFault::NoParent,
            NormalizeError::NoStem => NormalizeFault::NoStem,
            NormalizeError::NotTable => NormalizeFault::NotTable,
            NormalizeError::PackageNotTable => NormalizeFault::PackageNotTable,
            NormalizeError::BinNotArray => NormalizeFault::BinNotArray,
            NormalizeError::TargetNotTable => NormalizeFault::TargetNotTable,
            NormalizeError::UnexpectedArray => NormalizeFault::UnexpectedArray,
            NormalizeError::InvalidValueType => NormalizeFault::InvalidValueType,
            NormalizeError::NonStringPath => NormalizeFault::NonStringPath,
        }
    }
}

/// The leaf step of a path rule: the field `key` of table `t`, where present,
/// read relative to `dir` and resolved in the environment.
pub open spec fn rewrite_leaf<E: ExecutionEnv>(t: Entries, key: Seq<char>, dir: Seq<char>, env: &E) -> Result<Entries, NormalizeFault> {
    if has_key(t, key) {
        match t[key_pos(t, key)].1 {
            Tree::Str(s) => match env.resolve(join(dir, s)) {
                Some(q) => Ok(t.update(key_pos(t, key), (key, Tree::Str(q)))),
                None => Err(NormalizeFault::Unresolvable(join(dir, s))),
            },
            _ => Err(NormalizeFault::NonStringPath),
        }
    } else {
        Ok(t)
    }
}

/// The path rule `rule`, from segment `depth` on, applied to `v`. An empty
/// segment stands for every item of an array or every value of a table.
pub open spec fn rewrite<E: ExecutionEnv>(v: Tree, rule: Seq<Seq<char>>, depth: nat, dir: Seq<char>, env: &E) -> Result<Tree, NormalizeFault>
    decreases v, 0nat,
{
    if depth + 1 >= rule.len() {
        match v {
            Tree::Table(t) => match rewrite_leaf(t, rule[depth as int], dir, env) {
                Ok(t2) => Ok(Tree::Table(t2)),
                Err(e) => Err(e),
            },
            _ => Ok(v),
        }
    } else {
        match v {
            Tree::Array(items) => if rule[depth as int].len() == 0 {
                match rewrite_items(items, rule, depth + 1, dir, env) {
                    Ok(a) => Ok(Tree::Array(a)),
                    Err(e) => Err(e),
                }
            } else {
                Err(NormalizeFault::UnexpectedArray)
            },
            Tree::Table(t) => if rule[depth as int].len() == 0 {
                match rewrite_values(t, rule, depth + 1, dir, env) {
                    Ok(t2) => Ok(Tree::Table(t2)),
                    Err(e) => Err(e),
                }
            } else if has_key(t, rule[depth as int]) && key_pos(t, rule[depth as int]) < t.len() {
                let p = key_pos(t, rule[depth as int]);
                match rewrite(t[p].1, rule, depth + 1, dir, env) {
                    Ok(c) => Ok(Tree::Table(t.update(p, (t[p].0, c)))),
                    Err(e) => Err(e),
                }
            } else {
                Ok(v)
            },
            _ => Err(NormalizeFault::InvalidValueType),
        }
    }
}

/// `rewrite` applied to each item, the first error winning.
pub open spec fn rewrite_items<E: ExecutionEnv>(items: Seq<Tree>, rule: Seq<Seq<char>>, depth: nat, dir: Seq<char>, env: &E) -> Result<Seq<Tree>, NormalizeFault>
    decreases items, items.len(),
{
    if items.len() == 0 {
        Ok(Seq::empty())
    } else {
        match rewrite_items(items.drop_last(), rule, depth, dir, env) {
            Err(e) => Err(e),
            Ok(a) => match rewrite(items.last(), rule, depth, dir, env) {
                Err(e) => Err(e),
                Ok(b) => Ok(a.push(b)),
            },
        }
    }
}

/// `rewrite` applied to each value of a table, the first error winning.
pub open spec fn rewrite_values<E: ExecutionEnv>(t: Entries, rule: Seq<Seq<char>>, depth: nat, dir: Seq<char>, env: &E) -> Result<Entries, NormalizeFault>
    decreases t, t.len(),
{
    if t.len() == 0 {
        Ok(Seq::empty())
    } else {
        match rewrite_values(t.drop_last(), rule, depth, dir, env) {
            Err(e) => Err(e),
            Ok(a) => match rewrite(t.last().1, rule, depth, dir, env) {
                Err(e) => Err(e),
                Ok(b) => Ok(a.push((t.last().0, b))),
            },
        }
    }
}

/// The segments of a path rule.
pub open spec fn segs(rule: Seq<&str>) -> Seq<Seq<char>> {
    rule.map_values(|s: &str| s@)
}

proof fn lemma_items_err<E: ExecutionEnv>(items: Seq<Tree>, k: int, rule: Seq<Seq<char>>, depth: nat, dir: Seq<char>, env: &E)
    requires
        0 <= k <= items.len(),
        rewrite_items(items.subrange(0, k), rule, depth, dir, env) is Err,
    ensures
        rewrite_items(items, rule, depth, dir, env) == rewrite_items(items.subrange(0, k), rule, depth, dir, env),
    decreases items.len() - k,
{
    if k < items.len() {
        assert(items.subrange(0, k + 1).drop_last() =~= items.subrange(0, k));
        lemma_items_err(items, k + 1, rule, depth, dir, env);
    } else {
        assert(items.subrange(0, k) =~= items);
    }
}

proof fn lemma_values_err<E: ExecutionEnv>(t: Entries, k: int, rule: Seq<Seq<char>>, depth: nat, dir: Seq<char>, env: &E)
    requires
        0 <= k <= t.len(),
        rewrite_values(t.subrange(0, k), rule, depth, dir, env) is Err,
    ensures
        rewrite_values(t, rule, depth, dir, env) == rewrite_values(t.subrange(0, k), rule, depth, dir, env),
    decreases t.len() - k,
{
    if k < t.len() {
        assert(t.subrange(0, k + 1).drop_last() =~= t.subrange(0, k));
        lemma_values_err(t, k + 1, rule, depth, dir, env);
    } else {
        assert(t.subrange(0, k) =~= t);
    }
}

/// Read the field `key` of a table, where present, relative to `dir`, and
/// resolve it in the environment.
fn normalize_table_item<E: ExecutionEnv>(t: Vec<(String, Node)>, key: &str, dir: &str, env: &E) -> (r: Result<Vec<(String, Node)>, NormalizeError>)
    ensures
        match rewrite_leaf(entries_of(t@), key@, dir@, env) {
            Ok(e) => r is Ok && entries_of(r->Ok_0@) == e,
            Err(e) => r is Err && r->Err_0@ == e,
        },
{
    let mut t = t;
    proof {
        lemma_key_pos_range(entries_of(t@), key@);
    }
    match table_find(&t, key) {
        None => Ok(t),
        Some(p) => {
            let ghost before = t@;
            assert(p as int == key_pos(entries_of(before), key@));
            let (k, v) = t.remove(p);
            assert(entries_of(before)[p as int] == (k@, v@));
            assert(k@ == key@);
            match v {
                Node::Str(s) => {
                    let j = join_path(dir, s.as_str());
                    let q = match env.normalize(j.as_str()) {
                        Ok(q) => q,
                        Err(_) => {
                            return Err(NormalizeError::Unresolvable(j));
                        },
                    };
                    let ghost qv = q@;
                    t.insert(p, (k, Node::Str(q)));
                    assert(t@ == before.update(p as int, t@[p as int]));
                    assert(entries_of(t@) =~= entries_of(before).update(p as int, (key@, Tree::Str(qv))));
                    Ok(t)
                },
                _ => Err(NormalizeError::NonStringPath),
            }
        },
    }
}

/// Apply the path rule `rule`, from segment `depth` on, to `v`.
#[verifier::spinoff_prover]
#[verifier::rlimit(60)]
pub fn normalize_node<E: ExecutionEnv>(v: Node, rule: &Vec<&str>, depth: usize, dir: &str, env: &E) -> (r: Result<Node, NormalizeError>)
    requires
        depth < rule@.len(),
    ensures
        match rewrite(v@, segs(rule@), depth as nat, dir@, env) {
            Ok(x) => r is Ok && r->Ok_0@ == x,
            Err(e) => r is Err && r->Err_0@ == e,
        },
    decreases v,
{
    let ghost rs = segs(rule@);
    let ghost v0 = v;
    proof {
        lemma_views(v);
    }
    assert(rs.len() == rule@.len());
    if depth >= rule.len() - 1 {
        assert(rs[depth as int] == rule@[depth as int]@);
        match v {
            Node::Table(t) => match normalize_table_item(t, rule[depth], dir, env) {
                Ok(t2) => {
                    let r = Node::Table(t2);
                    proof {
                        lemma_views(r);
                    }
                    assert(rewrite(v0@, rs, depth as nat, dir@, env) == Ok::<Tree, NormalizeFault>(r@));
                    Ok(r)
                },
                Err(e) => {
                    assert(rewrite(v0@, rs, depth as nat, dir@, env) == Err::<Tree, NormalizeFault>(e@));
                    Err(e)
                },
            },
            other => {
                assert(rewrite(v0@, rs, depth as nat, dir@, env) == Ok::<Tree, NormalizeFault>(v0@));
                Ok(other)
            },
        }
    } else {
        let seg = rule[depth];
        assert(rs[depth as int] == seg@);
        match v {
            Node::Array(items) => {
                if !seg.is_empty() {
                    return Err(NormalizeError::UnexpectedArray);
                }
                let ghost orig = items@;
                let ghost items0 = items;
                let next = depth + 1;
                let ghost model = items_of(orig);
                let n = items.len();
                let mut rest = items;
                let mut out: Vec<Node> = Vec::new();
                let mut i: usize = 0;
                assert(model.subrange(0, 0) =~= Seq::<Tree>::empty());
                assert(items_of(out@) =~= Seq::<Tree>::empty());
                assert(rest@.subrange(0, n as int) =~= rest@);
                while i < n
                    invariant
                        n == orig.len(),
                        model == items_of(orig),
                        v0 == Node::Array(items0),
                        v == v0,
                        v0@ == Tree::Array(model),
                        rs.len() == rule@.len(),
                        rs[depth as int].len() == 0,
                        items0@ == orig,
                        next == depth + 1,
                        depth + 1 < rule@.len(),
                        rs == segs(rule@),
                        i <= n,
                        rest@ == orig.subrange(i as int, n as int),
                        rewrite_items(model.subrange(0, i as int), rs, (depth + 1) as nat, dir@, env) == Ok::<
                            Seq<Tree>,
                            NormalizeFault,
                        >(items_of(out@)),
                    decreases n - i,
                {
                    let x = rest.remove(0);
                    assert(x == orig[i as int]);
                    assert(model.subrange(0, i + 1).drop_last() =~= model.subrange(0, i as int));
                    assert(model.subrange(0, i + 1).last() == x@);
                    proof {
                        assert(decreases_to!(v0 => v0->Array_0));
                        assert(decreases_to!(items0 => items0@));
                        assert(decreases_to!(items0@ => items0@[i as int]));
                        assert(decreases_to!(v0 => x));
                        assert(decreases_to!(v => x));
                    }
                    match normalize_node(x, rule, next, dir, env) {
                        Ok(y) => {
                            let ghost out_before = out@;
                            out.push(y);
                            assert(items_of(out@) =~= items_of(out_before).push(y@));
                        },
                        Err(e) => {
                            proof {
                                lemma_items_err(model, i + 1, rs, (depth + 1) as nat, dir@, env);
                            }
                            return Err(e);
                        },
                    }
                    assert(rest@ =~= orig.subrange(i + 1, n as int));
                    i = i + 1;
                }
                assert(model.subrange(0, n as int) =~= model);
                assert(v0@ == Tree::Array(model));
                assert(rs.len() == rule@.len());
                assert(rs[depth as int].len() == 0);
                assert(rewrite(v0@, rs, depth as nat, dir@, env) == match rewrite_items(model, rs, (depth + 1) as nat, dir@, env) {
                    Ok(a) => Ok(Tree::Array(a)),
                    Err(e) => Err(e),
                });
                let r = Node::Array(out);
                proof {
                    lemma_views(r);
                }
                Ok(r)
            },
            Node::Table(t) => {
                let next = depth + 1;
                if seg.is_empty() {
                    let ghost orig = t@;
                    let ghost t0 = t;
                    let ghost model = entries_of(orig);
                    let n = t.len();
                    let mut rest = t;
                    let mut out: Vec<(String, Node)> = Vec::new();
                    let mut i: usize = 0;
                    assert(model.subrange(0, 0) =~= Seq::<(Seq<char>, Tree)>::empty());
                    assert(entries_of(out@) =~= Seq::<(Seq<char>, Tree)>::empty());
                    assert(rest@.subrange(0, n as int) =~= rest@);
                    while i < n
                        invariant
                            n == orig.len(),
                            model == entries_of(orig),
                            v0 == Node::Table(t0),
                            v == v0,
                            v0@ == Tree::Table(model),
                            t0@ == orig,
                            next == depth + 1,
                            depth + 1 < rule@.len(),
                            rs == segs(rule@),
                            rs.len() == rule@.len(),
                            rs[depth as int].len() == 0,
                            i <= n,
                            rest@ == orig.subrange(i as int, n as int),
                            rewrite_values(model.subrange(0, i as int), rs, (depth + 1) as nat, dir@, env)
                                == Ok::<Entries, NormalizeFault>(entries_of(out@)),
                        decreases n - i,
                    {
                        let (k, x) = rest.remove(0);
                        assert(orig[i as int] == (k, x));
                        assert(model.subrange(0, i + 1).drop_last() =~= model.subrange(0, i as int));
                        assert(model.subrange(0, i + 1).last() == (k@, x@));
                        proof {
                            assert(decreases_to!(v0 => v0->Table_0));
                            assert(decreases_to!(t0 => t0@));
                            assert(decreases_to!(t0@ => t0@[i as int]));
                            assert(decreases_to!(t0@[i as int] => t0@[i as int].1));
                            assert(decreases_to!(v => x));
                        }
                        match normalize_node(x, rule, next, dir, env) {
                            Ok(y) => {
                                let ghost out_before = out@;
                                out.push((k, y));
                                assert(entries_of(out@) =~= entries_of(out_before).push((k@, y@)));
                            },
                            Err(e) => {
                                proof {
                                    lemma_values_err(model, i + 1, rs, (depth + 1) as nat, dir@, env);
                                }
                                return Err(e);
                            },
                        }
                        assert(rest@ =~= orig.subrange(i + 1, n as int));
                        i = i + 1;
                    }
                    assert(model.subrange(0, n as int) =~= model);
                    let r = Node::Table(out);
                    proof {
                        lemma_views(r);
                    }
                    Ok(r)
                } else {
                    let mut t = t;
                    let ghost t0 = t;
                    proof {
                        lemma_key_pos_range(entries_of(t@), seg@);
                    }
                    match table_find(&t, seg) {
                        None => {
                            let r = Node::Table(t);
                            Ok(r)
                        },
                        Some(p) => {
                            let ghost before = t@;
                            assert(p as int == key_pos(entries_of(before), seg@));
                            let (k, c) = t.remove(p);
                            assert(entries_of(before)[p as int] == (k@, c@));
                            proof {
                                assert(decreases_to!(v0 => v0->Table_0));
                                assert(decreases_to!(t0 => t0@));
                                assert(decreases_to!(t0@ => t0@[p as int]));
                                assert(decreases_to!(t0@[p as int] => t0@[p as int].1));
                                assert(decreases_to!(v => c));
                            }
                            match normalize_node(c, rule, next, dir, env) {
                                Ok(c2) => {
                                    let ghost kv = k@;
                                    let ghost cv = c2@;
                                    t.insert(p, (k, c2));
                                    assert(entries_of(t@) =~= entries_of(before).update(p as int, (kv, cv)));
                                    let r = Node::Table(t);
                                    proof {
                                        lemma_views(r);
                                    }
                                    Ok(r)
                                },
                                Err(e) => Err(e),
                            }
                        },
                    }
                }
            },
            _ => {
                assert(rewrite(v0@, rs, depth as nat, dir@, env) == Err::<Tree, NormalizeFault>(NormalizeFault::InvalidValueType));
                Err(NormalizeError::InvalidValueType)
            },
        }
    }
}

} // verus!
