//! Normalizing a normalized manifest again changes nothing.
use vstd::prelude::*;

use crate::document::{get, has_key, insert, key_pos, lemma_insert, lemma_key_pos_range, lemma_same_keys, Entries, Tree};
use crate::document::{lemma_remove_unique, remove, unique_keys};
use crate::manifest::{empty_table, ensure_package, ensure_target, fill, patched_all, patched_target, patched_targets};
use crate::manifest::{normalized, path_rules};
use crate::paths::{is_absolute, join, path_parent, path_stem};
use crate::env::ExecutionEnv;
use crate::rules::{apply_rule, apply_rules, heads_distinct, lemma_rules_stable, lemma_update_value, stable_env};
use crate::traverse::{rewrite, rewrite_items, rewrite_leaf, NormalizeFault};

verus! {

/// Putting a value under one key leaves every other key where it was, with
/// its value.
pub proof fn lemma_insert_other(t: Entries, k: Seq<char>, v: Tree, k2: Seq<char>)
    requires
        k2 != k,
    ensures
        has_key(insert(t, k, v), k2) == has_key(t, k2),
        get(insert(t, k, v), k2) == get(t, k2),
{
    lemma_key_pos_range(t, k);
    lemma_key_pos_range(t, k2);
    if has_key(t, k) {
        let p = key_pos(t, k);
        assert(t[p].0 == k);
        lemma_update_value(t, p, v, k2);
        assert(t.update(p, (t[p].0, v)) =~= insert(t, k, v));
        if has_key(t, k2) {
            assert(key_pos(t, k2) != p);
        }
    } else {
        let u = t.push((k, v));
        assert(u.drop_last() =~= t);
        if has_key(t, k2) {
            assert(u[key_pos(t, k2)] == t[key_pos(t, k2)]);
        }
    }
}

/// Putting under a key the value it already holds changes nothing.
pub proof fn lemma_insert_same(t: Entries, k: Seq<char>, v: Tree)
    requires
        get(t, k) == Some(v),
    ensures
        insert(t, k, v) == t,
{
    lemma_key_pos_range(t, k);
    let p = key_pos(t, k);
    assert(t[p] == (k, v));
    assert(t.update(p, (k, v)) =~= t);
}

pub proof fn lemma_fill(t: Entries, k: Seq<char>, v: Tree)
    ensures
        has_key(fill(t, k, v), k),
        has_key(t, k) ==> fill(t, k, v) == t,
        forall|k2: Seq<char>| k2 != k ==> (has_key(#[trigger] fill(t, k, v), k2) == has_key(t, k2) && get(fill(t, k, v), k2) == get(t, k2)),
{
    lemma_insert(t, k, v);
    assert forall|k2: Seq<char>| k2 != k implies (has_key(#[trigger] fill(t, k, v), k2) == has_key(t, k2) && get(fill(t, k, v), k2) == get(t, k2)) by {
        lemma_insert_other(t, k, v, k2);
    }
}

/// A target pointed at the script `resolved`, with a name.
pub open spec fn target_ok(v: Tree, resolved: Seq<char>) -> bool {
    v is Table && get(v->Table_0, "path"@) == Some(Tree::Str(resolved)) && has_key(v->Table_0, "name"@)
}

proof fn lemma_patched_target(v: Tree, path: Seq<char>, name: Seq<char>)
    requires
        v is Table,
    ensures
        target_ok(patched_target(v, path, name)->Ok_0, path),
        target_ok(v, path) ==> patched_target(v, path, name) == Ok::<Tree, crate::traverse::NormalizeFault>(v),
{
    reveal_strlit("path");
    reveal_strlit("name");
    let t = v->Table_0;
    let t1 = insert(t, "path"@, Tree::Str(path));
    lemma_insert(t, "path"@, Tree::Str(path));
    lemma_fill(t1, "name"@, Tree::Str(name));
    assert("name"@[0] == 'n' && "path"@[0] == 'p');
    assert("name"@ != "path"@);
    if target_ok(v, path) {
        lemma_insert_same(t, "path"@, Tree::Str(path));
        lemma_fill(t, "name"@, Tree::Str(name));
    }
}

proof fn lemma_patched_targets(items: Seq<Tree>, path: Seq<char>, name: Seq<char>)
    requires
        patched_targets(items, path, name) is Ok,
    ensures
        patched_targets(items, path, name)->Ok_0.len() == items.len(),
        forall|i: int| 0 <= i < items.len() ==> target_ok(#[trigger] patched_targets(items, path, name)->Ok_0[i], path),
        (forall|i: int| 0 <= i < items.len() ==> target_ok(#[trigger] items[i], path)) ==> patched_targets(items, path, name)
            == Ok::<Seq<Tree>, crate::traverse::NormalizeFault>(items),
    decreases items.len(),
{
    if items.len() > 0 {
        let init = items.drop_last();
        lemma_patched_targets(init, path, name);
        lemma_patched_target(items.last(), path, name);
        let a = patched_targets(init, path, name)->Ok_0;
        let r = patched_targets(items, path, name)->Ok_0;
        assert forall|i: int| 0 <= i < items.len() implies target_ok(#[trigger] r[i], path) by {
            if i < items.len() - 1 {
                assert(r[i] == a[i]);
            }
        }
        if forall|i: int| 0 <= i < items.len() ==> target_ok(#[trigger] items[i], path) {
            assert forall|i: int| 0 <= i < init.len() implies target_ok(#[trigger] init[i], path) by {
                assert(init[i] == items[i]);
            }
            assert(target_ok(items[items.len() - 1], path));
            assert(init.push(items.last()) =~= items);
        }
    } else {
        assert(items =~= Seq::<Tree>::empty());
    }
}

/// A rule whose first key is `k` leaves the value under every other key.
pub proof fn lemma_rule_other<E: ExecutionEnv>(t: Entries, rule: Seq<Seq<char>>, dir: Seq<char>, env: &E, k: Seq<char>)
    requires
        apply_rule(t, rule, dir, env) is Ok,
        k != rule[0],
    ensures
        has_key(apply_rule(t, rule, dir, env)->Ok_0, k) == has_key(t, k),
        get(apply_rule(t, rule, dir, env)->Ok_0, k) == get(t, k),
{
    lemma_key_pos_range(t, k);
    lemma_key_pos_range(t, rule[0]);
    if has_key(t, rule[0]) && key_pos(t, rule[0]) < t.len() {
        let p = key_pos(t, rule[0]);
        let c = crate::traverse::rewrite(t[p].1, rule, 1, dir, env)->Ok_0;
        lemma_update_value(t, p, c, k);
        if has_key(t, k) {
            assert(key_pos(t, k) != p);
        }
    }
}

proof fn lemma_keys_distinct()
    ensures
        "cargo-wop"@ != "package"@,
        "cargo-wop"@ != "lib"@,
        "cargo-wop"@ != "bin"@,
        "package"@ != "lib"@,
        "package"@ != "bin"@,
        "lib"@ != "bin"@,
        "name"@ != "version"@,
        "name"@ != "edition"@,
        "version"@ != "edition"@,
{
    reveal_strlit("cargo-wop");
    reveal_strlit("package");
    reveal_strlit("lib");
    reveal_strlit("bin");
    reveal_strlit("name");
    reveal_strlit("version");
    reveal_strlit("edition");
    assert("package"@[0] == 'p' && "lib"@[0] == 'l' && "bin"@[0] == 'b');
    assert("version"@[0] == 'v' && "edition"@[0] == 'e');
}

/// What a normalized manifest looks like: no tool section; a package table
/// with a name, a version and an edition; the library and every binary
/// pointed at the script and named; at least one of them.
pub open spec fn shape(t: Entries, resolved: Seq<char>) -> bool {
    &&& !has_key(t, "cargo-wop"@)
    &&& match get(t, "package"@) {
        Some(Tree::Table(pk)) => has_key(pk, "name"@) && has_key(pk, "version"@) && has_key(pk, "edition"@),
        _ => false,
    }
    &&& match get(t, "lib"@) {
        Some(l) => target_ok(l, resolved),
        None => true,
    }
    &&& match get(t, "bin"@) {
        Some(Tree::Array(items)) => forall|i: int| 0 <= i < items.len() ==> target_ok(#[trigger] items[i], resolved),
        Some(_) => false,
        None => true,
    }
    &&& (has_key(t, "lib"@) || match get(t, "bin"@) {
        Some(Tree::Array(items)) => items.len() > 0,
        _ => false,
    })
}

proof fn lemma_package_shape(t1: Entries, name: Seq<char>)
    requires
        !has_key(t1, "cargo-wop"@),
        ensure_package(t1, name) is Ok,
    ensures
        ({
            let t2 = ensure_package(t1, name)->Ok_0;
            &&& !has_key(t2, "cargo-wop"@)
            &&& match get(t2, "package"@) {
                Some(Tree::Table(pk)) => has_key(pk, "name"@) && has_key(pk, "version"@) && has_key(pk, "edition"@),
                _ => false,
            }
            &&& get(t2, "lib"@) == get(t1, "lib"@)
            &&& has_key(t2, "lib"@) == has_key(t1, "lib"@)
            &&& get(t2, "bin"@) == get(t1, "bin"@)
        }),
{
    lemma_keys_distinct();
    let f = fill(t1, "package"@, empty_table());
    lemma_fill(t1, "package"@, empty_table());
    let pk = get(f, "package"@)->Some_0->Table_0;
    let pk1 = fill(pk, "name"@, Tree::Str(name));
    let pk2 = fill(pk1, "version"@, Tree::Str("0.1.0"@));
    let pk3 = fill(pk2, "edition"@, Tree::Str("2018"@));
    lemma_fill(pk, "name"@, Tree::Str(name));
    lemma_fill(pk1, "version"@, Tree::Str("0.1.0"@));
    lemma_fill(pk2, "edition"@, Tree::Str("2018"@));
    lemma_insert(f, "package"@, Tree::Table(pk3));
    lemma_insert_other(f, "package"@, Tree::Table(pk3), "cargo-wop"@);
    lemma_insert_other(f, "package"@, Tree::Table(pk3), "lib"@);
    lemma_insert_other(f, "package"@, Tree::Table(pk3), "bin"@);
}

proof fn lemma_target_shape(t2: Entries)
    requires
        ensure_target(t2) is Ok,
    ensures
        ({
            let t3 = ensure_target(t2)->Ok_0;
            &&& has_key(t3, "cargo-wop"@) == has_key(t2, "cargo-wop"@)
            &&& get(t3, "package"@) == get(t2, "package"@)
            &&& get(t3, "lib"@) == get(t2, "lib"@)
            &&& has_key(t3, "lib"@) == has_key(t2, "lib"@)
            &&& (get(t3, "bin"@) is None || get(t3, "bin"@)->Some_0 is Array)
            &&& (has_key(t3, "lib"@) || match get(t3, "bin"@) {
                Some(Tree::Array(items)) => items.len() > 0,
                _ => false,
            })
        }),
{
    lemma_keys_distinct();
    let v = Tree::Array(seq![empty_table()]);
    lemma_insert(t2, "bin"@, v);
    lemma_insert_other(t2, "bin"@, v, "cargo-wop"@);
    lemma_insert_other(t2, "bin"@, v, "package"@);
    lemma_insert_other(t2, "bin"@, v, "lib"@);
}

proof fn lemma_patch_shape(t3: Entries, resolved: Seq<char>, name: Seq<char>)
    requires
        patched_all(t3, resolved, name) is Ok,
        !has_key(t3, "cargo-wop"@),
        match get(t3, "package"@) {
            Some(Tree::Table(pk)) => has_key(pk, "name"@) && has_key(pk, "version"@) && has_key(pk, "edition"@),
            _ => false,
        },
        has_key(t3, "lib"@) || match get(t3, "bin"@) {
            Some(Tree::Array(items)) => items.len() > 0,
            _ => false,
        },
    ensures
        shape(patched_all(t3, resolved, name)->Ok_0, resolved),
{
    lemma_keys_distinct();
    let t1 = match get(t3, "lib"@) {
        Some(lib) => insert(t3, "lib"@, patched_target(lib, resolved, name)->Ok_0),
        None => t3,
    };
    match get(t3, "lib"@) {
        Some(lib) => {
            let l = patched_target(lib, resolved, name)->Ok_0;
            lemma_patched_target(lib, resolved, name);
            lemma_insert(t3, "lib"@, l);
            lemma_insert_other(t3, "lib"@, l, "cargo-wop"@);
            lemma_insert_other(t3, "lib"@, l, "package"@);
            lemma_insert_other(t3, "lib"@, l, "bin"@);
        },
        None => {},
    }
    match get(t1, "bin"@) {
        Some(Tree::Array(items)) => {
            lemma_patched_targets(items, resolved, name);
            let b = Tree::Array(patched_targets(items, resolved, name)->Ok_0);
            lemma_insert(t1, "bin"@, b);
            lemma_insert_other(t1, "bin"@, b, "cargo-wop"@);
            lemma_insert_other(t1, "bin"@, b, "package"@);
            lemma_insert_other(t1, "bin"@, b, "lib"@);
        },
        _ => {},
    }
}

proof fn lemma_targets_unchanged<E: ExecutionEnv>(items: Seq<Tree>, rule: Seq<Seq<char>>, dir: Seq<char>, env: &E, resolved: Seq<char>)
    requires
        rule.len() == 3,
        rule[2] == "path"@,
        is_absolute(resolved),
        env.resolve(resolved) == Some(resolved),
        forall|i: int| 0 <= i < items.len() ==> target_ok(#[trigger] items[i], resolved),
    ensures
        rewrite_items(items, rule, 2, dir, env) == Ok::<Seq<Tree>, NormalizeFault>(items),
    decreases items.len(),
{
    if items.len() > 0 {
        let init = items.drop_last();
        assert forall|i: int| 0 <= i < init.len() implies target_ok(#[trigger] init[i], resolved) by {
            assert(init[i] == items[i]);
        }
        lemma_targets_unchanged(init, rule, dir, env, resolved);
        let last = items.last();
        assert(target_ok(items[items.len() - 1], resolved));
        lemma_target_unchanged(last, "path"@, dir, env, resolved);
        assert(rule[2int] == "path"@);
        assert(rewrite(last, rule, 2, dir, env) == Ok::<Tree, NormalizeFault>(last));
        assert(init.push(last) =~= items);
    } else {
        assert(items =~= Seq::<Tree>::empty());
    }
}

proof fn lemma_target_unchanged<E: ExecutionEnv>(v: Tree, key: Seq<char>, dir: Seq<char>, env: &E, resolved: Seq<char>)
    requires
        key == "path"@,
        is_absolute(resolved),
        env.resolve(resolved) == Some(resolved),
        target_ok(v, resolved),
    ensures
        rewrite_leaf(v->Table_0, key, dir, env) == Ok::<Entries, NormalizeFault>(v->Table_0),
{
    let t = v->Table_0;
    lemma_key_pos_range(t, key);
    let q = key_pos(t, key);
    assert(join(dir, resolved) == resolved);
    assert(t[q] == (key, Tree::Str(resolved)));
    assert(t.update(q, (key, Tree::Str(resolved))) =~= t);
}

proof fn lemma_rule_keeps_shape<E: ExecutionEnv>(t: Entries, rule: Seq<Seq<char>>, dir: Seq<char>, env: &E, resolved: Seq<char>)
    requires
        shape(t, resolved),
        is_absolute(resolved),
        env.resolve(resolved) == Some(resolved),
        apply_rule(t, rule, dir, env) is Ok,
        rule.len() >= 2,
        rule[0] != "cargo-wop"@,
        rule[0] == "package"@ ==> rule == seq!["package"@, "build"@],
        rule[0] == "lib"@ ==> rule == seq!["lib"@, "path"@],
        rule[0] == "bin"@ ==> rule == seq!["bin"@, ""@, "path"@],
    ensures
        shape(apply_rule(t, rule, dir, env)->Ok_0, resolved),
{
    lemma_keys_distinct();
    reveal_strlit("");
    let h = rule[0];
    let r = apply_rule(t, rule, dir, env)->Ok_0;
    lemma_rule_other(t, rule, dir, env, "cargo-wop"@);
    lemma_key_pos_range(t, h);
    if h != "package"@ {
        lemma_rule_other(t, rule, dir, env, "package"@);
    }
    if h != "lib"@ {
        lemma_rule_other(t, rule, dir, env, "lib"@);
    }
    if h != "bin"@ {
        lemma_rule_other(t, rule, dir, env, "bin"@);
    }
    if h == "package"@ {
        let p = key_pos(t, h);
        let pk = t[p].1->Table_0;
        assert(rule.len() == 2);
        let pk2 = rewrite_leaf(pk, rule[1], dir, env)->Ok_0;
        lemma_key_pos_range(pk, rule[1]);
        if has_key(pk, rule[1]) {
            let q = key_pos(pk, rule[1]);
            lemma_update_value(pk, q, pk2[q].1, "name"@);
            lemma_update_value(pk, q, pk2[q].1, "version"@);
            lemma_update_value(pk, q, pk2[q].1, "edition"@);
            assert(pk.update(q, (pk[q].0, pk2[q].1)) =~= pk2);
        }
        lemma_update_value(t, p, Tree::Table(pk2), h);
    }
    if h == "lib"@ && has_key(t, h) {
        let p = key_pos(t, h);
        assert(get(t, h) == Some(t[p].1));
        lemma_target_unchanged(t[p].1, rule[1], dir, env, resolved);
        assert(t.update(p, (t[p].0, t[p].1)) =~= t);
    }
    if h == "bin"@ && has_key(t, h) {
        let p = key_pos(t, h);
        assert(get(t, h) == Some(t[p].1));
        let items = t[p].1->Array_0;
        lemma_targets_unchanged(items, rule, dir, env, resolved);
        assert(t.update(p, (t[p].0, t[p].1)) =~= t);
    }
}

proof fn lemma_path_rule_heads()
    ensures
        heads_distinct(path_rules()),
        forall|i: int|
            0 <= i < path_rules().len() ==> {
                let rule = #[trigger] path_rules()[i];
                &&& rule.len() >= 2
                &&& rule[0] != "cargo-wop"@
                &&& (rule[0] == "package"@ ==> rule == seq!["package"@, "build"@])
                &&& (rule[0] == "lib"@ ==> rule == seq!["lib"@, "path"@])
                &&& (rule[0] == "bin"@ ==> rule == seq!["bin"@, ""@, "path"@])
            },
{
    reveal_strlit("lib");
    reveal_strlit("bin");
    reveal_strlit("example");
    reveal_strlit("test");
    reveal_strlit("bench");
    reveal_strlit("package");
    reveal_strlit("dependencies");
    reveal_strlit("dev-dependencies");
    reveal_strlit("build-dependencies");
    reveal_strlit("patch");
    reveal_strlit("target");
    reveal_strlit("cargo-wop");
    let heads = seq![
        "lib"@,
        "bin"@,
        "example"@,
        "test"@,
        "bench"@,
        "package"@,
        "dependencies"@,
        "dev-dependencies"@,
        "build-dependencies"@,
        "patch"@,
        "target"@,
    ];
    assert(forall|i: int| 0 <= i < 11 ==> (#[trigger] path_rules()[i])[0] == heads[i]);
    assert("lib"@[0] == 'l' && "bin"@[0] == 'b' && "test"@[0] == 't' && "bench"@[0] == 'b' && "patch"@[0] == 'p');
    assert("package"@[0] == 'p' && "example"@[0] == 'e' && "target"@[0] == 't');
    assert("dependencies"@[0] == 'd' && "dev-dependencies"@[2] == 'v' && "dependencies"@[2] == 'p');
    assert("cargo-wop"@.len() == 9);
    assert forall|i: int, j: int| 0 <= i < 11 && 0 <= j < 11 && i != j implies #[trigger] heads[i] != #[trigger] heads[j] by {
        if heads[i] == heads[j] {
            assert(heads[i].len() == heads[j].len());
            assert(heads[i][0] == heads[j][0]);
        }
    }
}

proof fn lemma_rules_keep_shape<E: ExecutionEnv>(t: Entries, k: int, dir: Seq<char>, env: &E, resolved: Seq<char>)
    requires
        shape(t, resolved),
        is_absolute(resolved),
        env.resolve(resolved) == Some(resolved),
        0 <= k <= path_rules().len(),
        apply_rules(t, path_rules().subrange(0, k), dir, env) is Ok,
    ensures
        shape(apply_rules(t, path_rules().subrange(0, k), dir, env)->Ok_0, resolved),
    decreases k,
{
    if k > 0 {
        let pre = path_rules().subrange(0, k);
        assert(pre.drop_last() =~= path_rules().subrange(0, k - 1));
        lemma_rules_keep_shape(t, k - 1, dir, env, resolved);
        lemma_path_rule_heads();
        let rule = path_rules()[k - 1];
        assert(pre.last() == rule);
        lemma_rule_keeps_shape(apply_rules(t, path_rules().subrange(0, k - 1), dir, env)->Ok_0, rule, dir, env, resolved);
    }
}

proof fn lemma_targets_fixed(items: Seq<Tree>, path: Seq<char>, name: Seq<char>)
    requires
        forall|i: int| 0 <= i < items.len() ==> target_ok(#[trigger] items[i], path),
    ensures
        patched_targets(items, path, name) == Ok::<Seq<Tree>, NormalizeFault>(items),
    decreases items.len(),
{
    if items.len() > 0 {
        let init = items.drop_last();
        assert forall|i: int| 0 <= i < init.len() implies target_ok(#[trigger] init[i], path) by {
            assert(init[i] == items[i]);
        }
        lemma_targets_fixed(init, path, name);
        assert(target_ok(items[items.len() - 1], path));
        lemma_patched_target(items.last(), path, name);
        assert(init.push(items.last()) =~= items);
    } else {
        assert(items =~= Seq::<Tree>::empty());
    }
}

proof fn lemma_second_run(t5: Entries, resolved: Seq<char>, name: Seq<char>)
    requires
        shape(t5, resolved),
    ensures
        remove(t5, "cargo-wop"@) == t5,
        ensure_package(t5, name) == Ok::<Entries, NormalizeFault>(t5),
        ensure_target(t5) == Ok::<Entries, NormalizeFault>(t5),
        patched_all(t5, resolved, name) == Ok::<Entries, NormalizeFault>(t5),
{
    lemma_keys_distinct();
    lemma_fill(t5, "package"@, empty_table());
    let pk = get(t5, "package"@)->Some_0->Table_0;
    lemma_fill(pk, "name"@, Tree::Str(name));
    lemma_fill(pk, "version"@, Tree::Str("0.1.0"@));
    lemma_fill(pk, "edition"@, Tree::Str("2018"@));
    lemma_insert_same(t5, "package"@, Tree::Table(pk));
    match get(t5, "lib"@) {
        Some(lib) => {
            lemma_patched_target(lib, resolved, name);
            lemma_insert_same(t5, "lib"@, lib);
        },
        None => {},
    }
    match get(t5, "bin"@) {
        Some(Tree::Array(items)) => {
            lemma_targets_fixed(items, resolved, name);
            lemma_insert_same(t5, "bin"@, Tree::Array(items));
        },
        _ => {},
    }
}

/// Normalizing a normalized manifest again gives the same manifest, in an
/// environment that resolves paths to absolute paths that resolve to
/// themselves (as canonicalization does), for a manifest whose keys are
/// unique, as those of a parsed TOML table are.
pub proof fn lemma_normalize_idempotent<E: ExecutionEnv>(doc: Tree, target: Seq<char>, env: &E)
    requires
        normalized(doc, target, env) is Ok,
        stable_env(env),
        doc is Table ==> unique_keys(doc->Table_0),
    ensures
        normalized(normalized(doc, target, env)->Ok_0, target, env) == normalized(doc, target, env),
{
    let dir = path_parent(target)->Some_0;
    let name = path_stem(target)->Some_0;
    let resolved = env.resolve(target)->Some_0;
    assert(env.resolve(target) matches Some(q) ==> is_absolute(q) && env.resolve(q) == Some(q));
    let t1 = remove(doc->Table_0, "cargo-wop"@);
    lemma_remove_unique(doc->Table_0, "cargo-wop"@);
    lemma_package_shape(t1, name);
    let t2 = ensure_package(t1, name)->Ok_0;
    lemma_target_shape(t2);
    let t3 = ensure_target(t2)->Ok_0;
    lemma_patch_shape(t3, resolved, name);
    let t4 = patched_all(t3, resolved, name)->Ok_0;
    assert(path_rules().subrange(0, path_rules().len() as int) =~= path_rules());
    lemma_rules_keep_shape(t4, path_rules().len() as int, dir, env, resolved);
    let t5 = apply_rules(t4, path_rules(), dir, env)->Ok_0;
    lemma_second_run(t5, resolved, name);
    lemma_path_rule_heads();
    lemma_rules_stable(t4, path_rules(), dir, env);
}

} // verus!
