//! Path rules applied to the root table of a manifest, and what path
//! rewriting does to documents.
use vstd::prelude::*;

use crate::document::{get, has_key, key_pos, lemma_key_pos_range, lemma_same_keys, Entries, Tree};
use crate::env::ExecutionEnv;
use crate::paths::{is_absolute, join};
use crate::traverse::{rewrite, rewrite_items, rewrite_leaf, rewrite_values, NormalizeFault};

verus! {

/// The rules applied to the root table of a manifest: each rule whose first
/// key is present is applied to the value under it, in order; the first
/// error wins.
pub open spec fn apply_rule<E: ExecutionEnv>(t: Entries, rule: Seq<Seq<char>>, dir: Seq<char>, env: &E) -> Result<Entries, NormalizeFault> {
    if has_key(t, rule[0]) && key_pos(t, rule[0]) < t.len() {
        let p = key_pos(t, rule[0]);
        match rewrite(t[p].1, rule, 1, dir, env) {
            Ok(c) => Ok(t.update(p, (t[p].0, c))),
            Err(e) => Err(e),
        }
    } else {
        Ok(t)
    }
}

/// The rules applied in order to the root table, the first error winning.
pub open spec fn apply_rules<E: ExecutionEnv>(t: Entries, rules: Seq<Seq<Seq<char>>>, dir: Seq<char>, env: &E) -> Result<Entries, NormalizeFault>
    decreases rules.len(),
{
    if rules.len() == 0 {
        Ok(t)
    } else {
        match apply_rules(t, rules.drop_last(), dir, env) {
            Ok(t1) => apply_rule(t1, rules.last(), dir, env),
            Err(e) => Err(e),
        }
    }
}

/// Path rewriting leaves a document alone where none of the rules' first
/// keys names a section of it.
pub proof fn lemma_no_section_no_change<E: ExecutionEnv>(t: Entries, rules: Seq<Seq<Seq<char>>>, dir: Seq<char>, env: &E)
    requires
        forall|i: int| 0 <= i < rules.len() ==> !has_key(t, (#[trigger] rules[i])[0]),
    ensures
        apply_rules(t, rules, dir, env) == Ok::<Entries, NormalizeFault>(t),
    decreases rules.len(),
{
    if rules.len() > 0 {
        let init = rules.drop_last();
        assert forall|i: int| 0 <= i < init.len() implies !has_key(t, (#[trigger] init[i])[0]) by {
            assert(init[i] == rules[i]);
        }
        lemma_no_section_no_change(t, init, dir, env);
        assert(!has_key(t, rules[rules.len() - 1][0]));
    }
}

/// A table whose field `key` holds the path `p`.
pub open spec fn has_path(v: Tree, key: Seq<char>, p: Seq<char>) -> bool {
    v is Table && get(v->Table_0, key) == Some(Tree::Str(p))
}

/// The resolution in `env` of the path `p` read relative to `dir`.
pub open spec fn resolved_in<E: ExecutionEnv>(p: Seq<char>, dir: Seq<char>, env: &E) -> Seq<char> {
    env.resolve(join(dir, p))->Some_0
}

/// The table `v` with its field `key` read relative to `dir` and resolved
/// in `env`.
pub open spec fn with_path<E: ExecutionEnv>(v: Tree, key: Seq<char>, dir: Seq<char>, env: &E) -> Tree {
    let t = v->Table_0;
    let p = get(t, key)->Some_0->Str_0;
    Tree::Table(t.update(key_pos(t, key), (key, Tree::Str(resolved_in(p, dir, env)))))
}

/// Path rewriting over an array of N tables, each with a path field at the
/// rule's last key that the environment resolves, rewrites the N fields,
/// each to the resolution of its own path.
pub proof fn lemma_rewrite_each_item<E: ExecutionEnv>(items: Seq<Tree>, rule: Seq<Seq<char>>, depth: nat, dir: Seq<char>, env: &E, paths: Seq<Seq<char>>)
    requires
        depth + 1 == rule.len(),
        paths.len() == items.len(),
        forall|i: int| 0 <= i < items.len() ==> has_path(#[trigger] items[i], rule[depth as int], paths[i]),
        forall|i: int| 0 <= i < paths.len() ==> env.resolve(join(dir, #[trigger] paths[i])) is Some,
    ensures
        rewrite_items(items, rule, depth, dir, env) == Ok::<Seq<Tree>, NormalizeFault>(
            Seq::new(items.len(), |i: int| with_path(items[i], rule[depth as int], dir, env)),
        ),
        forall|i: int| 0 <= i < items.len() ==> has_path(
            #[trigger] with_path(items[i], rule[depth as int], dir, env),
            rule[depth as int],
            resolved_in(paths[i], dir, env),
        ),
    decreases items.len(),
{
    let key = rule[depth as int];
    let expected = Seq::new(items.len(), |i: int| with_path(items[i], key, dir, env));
    assert forall|i: int| 0 <= i < items.len() implies has_path(
        #[trigger] with_path(items[i], key, dir, env),
        key,
        resolved_in(paths[i], dir, env),
    ) by {
        let t = items[i]->Table_0;
        lemma_key_pos_range(t, key);
        let u = t.update(key_pos(t, key), (key, Tree::Str(resolved_in(paths[i], dir, env))));
        assert forall|j: int| 0 <= j < t.len() implies (#[trigger] t[j]).0 == u[j].0 by {}
        lemma_same_keys(t, u, key);
    }
    if items.len() > 0 {
        let init = items.drop_last();
        let pinit = paths.drop_last();
        assert forall|i: int| 0 <= i < init.len() implies has_path(#[trigger] init[i], key, pinit[i]) by {
            assert(init[i] == items[i]);
        }
        assert forall|i: int| 0 <= i < pinit.len() implies env.resolve(join(dir, #[trigger] pinit[i])) is Some by {
            assert(pinit[i] == paths[i]);
        }
        lemma_rewrite_each_item(init, rule, depth, dir, env, pinit);
        let last = items.last();
        assert(has_path(last, key, paths.last()));
        assert(env.resolve(join(dir, paths[paths.len() - 1])) is Some);
        lemma_key_pos_range(last->Table_0, key);
        assert(rewrite(last, rule, depth, dir, env) == Ok::<Tree, NormalizeFault>(with_path(last, key, dir, env)));
        assert(Seq::new(init.len(), |i: int| with_path(init[i], key, dir, env)).push(with_path(last, key, dir, env)) =~= expected);
    } else {
        assert(expected =~= Seq::<Tree>::empty());
    }
}

/// Whether the environment resolves paths to absolute paths that resolve
/// to themselves, as canonicalization does.
pub open spec fn stable_env<E: ExecutionEnv>(env: &E) -> bool {
    forall|p: Seq<char>| #[trigger] env.resolve(p) matches Some(q) ==> is_absolute(q) && env.resolve(q) == Some(q)
}

/// Replacing the value of an entry keeps the positions of all keys.
pub proof fn lemma_update_value(t: Entries, p: int, v: Tree, k: Seq<char>)
    requires
        0 <= p < t.len(),
    ensures
        key_pos(t.update(p, (t[p].0, v)), k) == key_pos(t, k),
{
    let u = t.update(p, (t[p].0, v));
    assert forall|i: int| 0 <= i < t.len() implies (#[trigger] t[i]).0 == u[i].0 by {}
    lemma_same_keys(t, u, k);
}

proof fn lemma_leaf_stable<E: ExecutionEnv>(t: Entries, key: Seq<char>, dir: Seq<char>, env: &E)
    requires
        stable_env(env),
        rewrite_leaf(t, key, dir, env) is Ok,
    ensures
        rewrite_leaf(rewrite_leaf(t, key, dir, env)->Ok_0, key, dir, env) == rewrite_leaf(t, key, dir, env),
{
    lemma_key_pos_range(t, key);
    if has_key(t, key) {
        let p = key_pos(t, key);
        let s = t[p].1->Str_0;
        let q = env.resolve(join(dir, s))->Some_0;
        let u = t.update(p, (key, Tree::Str(q)));
        assert(t[p].0 == key);
        lemma_update_value(t, p, Tree::Str(q), key);
        assert(env.resolve(join(dir, s)) matches Some(x) ==> is_absolute(x) && env.resolve(x) == Some(x));
        assert(join(dir, q) == q);
        assert(u.update(p, (key, Tree::Str(q))) =~= u);
    }
}

/// Path rewriting in an environment whose resolutions resolve to
/// themselves is stable: rewriting what it gave changes nothing.
pub proof fn lemma_rewrite_stable<E: ExecutionEnv>(v: Tree, rule: Seq<Seq<char>>, depth: nat, dir: Seq<char>, env: &E)
    requires
        stable_env(env),
        rewrite(v, rule, depth, dir, env) is Ok,
    ensures
        rewrite(rewrite(v, rule, depth, dir, env)->Ok_0, rule, depth, dir, env) == rewrite(v, rule, depth, dir, env),
    decreases v, 0nat,
{
    if depth + 1 >= rule.len() {
        match v {
            Tree::Table(t) => {
                lemma_leaf_stable(t, rule[depth as int], dir, env);
            },
            _ => {},
        }
    } else {
        match v {
            Tree::Array(items) => {
                lemma_items_stable(items, rule, depth + 1, dir, env);
            },
            Tree::Table(t) => {
                if rule[depth as int].len() == 0 {
                    lemma_values_stable(t, rule, depth + 1, dir, env);
                } else if has_key(t, rule[depth as int]) && key_pos(t, rule[depth as int]) < t.len() {
                    let k = rule[depth as int];
                    let p = key_pos(t, k);
                    assert(decreases_to!(v => t));
                    assert(decreases_to!(t => t[p]));
                    assert(decreases_to!(t[p] => t[p].1));
                    lemma_rewrite_stable(t[p].1, rule, depth + 1, dir, env);
                    let c = rewrite(t[p].1, rule, depth + 1, dir, env)->Ok_0;
                    let u = t.update(p, (t[p].0, c));
                    lemma_update_value(t, p, c, k);
                    assert(u.update(p, (u[p].0, c)) =~= u);
                }
            },
            _ => {},
        }
    }
}

proof fn lemma_items_stable<E: ExecutionEnv>(items: Seq<Tree>, rule: Seq<Seq<char>>, depth: nat, dir: Seq<char>, env: &E)
    requires
        stable_env(env),
        rewrite_items(items, rule, depth, dir, env) is Ok,
    ensures
        rewrite_items(rewrite_items(items, rule, depth, dir, env)->Ok_0, rule, depth, dir, env) == rewrite_items(
            items,
            rule,
            depth,
            dir,
            env,
        ),
    decreases items, items.len(),
{
    if items.len() > 0 {
        let a = rewrite_items(items, rule, depth, dir, env)->Ok_0;
        lemma_items_stable(items.drop_last(), rule, depth, dir, env);
        assert(decreases_to!(items => items[items.len() - 1]));
        lemma_rewrite_stable(items.last(), rule, depth, dir, env);
        let a0 = rewrite_items(items.drop_last(), rule, depth, dir, env)->Ok_0;
        assert(a.drop_last() =~= a0);
    }
}

proof fn lemma_values_stable<E: ExecutionEnv>(t: Entries, rule: Seq<Seq<char>>, depth: nat, dir: Seq<char>, env: &E)
    requires
        stable_env(env),
        rewrite_values(t, rule, depth, dir, env) is Ok,
    ensures
        rewrite_values(rewrite_values(t, rule, depth, dir, env)->Ok_0, rule, depth, dir, env) == rewrite_values(
            t,
            rule,
            depth,
            dir,
            env,
        ),
    decreases t, t.len(),
{
    if t.len() > 0 {
        let a = rewrite_values(t, rule, depth, dir, env)->Ok_0;
        lemma_values_stable(t.drop_last(), rule, depth, dir, env);
        assert(decreases_to!(t => t[t.len() - 1]));
        assert(decreases_to!(t[t.len() - 1] => t[t.len() - 1].1));
        lemma_rewrite_stable(t.last().1, rule, depth, dir, env);
        let a0 = rewrite_values(t.drop_last(), rule, depth, dir, env)->Ok_0;
        assert(a.drop_last() =~= a0);
    }
}

/// Applying a rule a second time, in such an environment, changes nothing.
pub proof fn lemma_rule_stable<E: ExecutionEnv>(t: Entries, rule: Seq<Seq<char>>, dir: Seq<char>, env: &E)
    requires
        stable_env(env),
        apply_rule(t, rule, dir, env) is Ok,
    ensures
        apply_rule(apply_rule(t, rule, dir, env)->Ok_0, rule, dir, env) == apply_rule(t, rule, dir, env),
{
    if has_key(t, rule[0]) && key_pos(t, rule[0]) < t.len() {
        let p = key_pos(t, rule[0]);
        lemma_rewrite_stable(t[p].1, rule, 1, dir, env);
        let c = rewrite(t[p].1, rule, 1, dir, env)->Ok_0;
        let u = t.update(p, (t[p].0, c));
        lemma_update_value(t, p, c, rule[0]);
        assert(u.update(p, (u[p].0, c)) =~= u);
    }
}

/// Whether applying `rule` to `t` leaves it as it is.
pub open spec fn fixed_by<E: ExecutionEnv>(t: Entries, rule: Seq<Seq<char>>, dir: Seq<char>, env: &E) -> bool {
    apply_rule(t, rule, dir, env) == Ok::<Entries, NormalizeFault>(t)
}

/// Whether no two rules start with the same key.
pub open spec fn heads_distinct(rules: Seq<Seq<Seq<char>>>) -> bool {
    forall|i: int, j: int| 0 <= i < rules.len() && 0 <= j < rules.len() && i != j ==> (#[trigger] rules[i])[0] != (#[trigger] rules[j])[0]
}

proof fn lemma_other_rule_keeps_fixed<E: ExecutionEnv>(x: Entries, ri: Seq<Seq<char>>, rj: Seq<Seq<char>>, dir: Seq<char>, env: &E)
    requires
        fixed_by(x, ri, dir, env),
        apply_rule(x, rj, dir, env) is Ok,
        ri[0] != rj[0],
    ensures
        fixed_by(apply_rule(x, rj, dir, env)->Ok_0, ri, dir, env),
{
    lemma_key_pos_range(x, ri[0]);
    lemma_key_pos_range(x, rj[0]);
    if has_key(x, rj[0]) && key_pos(x, rj[0]) < x.len() {
        let pj = key_pos(x, rj[0]);
        let c = rewrite(x[pj].1, rj, 1, dir, env)->Ok_0;
        let y = x.update(pj, (x[pj].0, c));
        lemma_update_value(x, pj, c, ri[0]);
        if has_key(x, ri[0]) {
            let pi = key_pos(x, ri[0]);
            assert(pi != pj);
            assert(y[pi] == x[pi]);
            let ci = rewrite(x[pi].1, ri, 1, dir, env)->Ok_0;
            assert(x.update(pi, (x[pi].0, ci))[pi] == x[pi]);
            assert(y.update(pi, (y[pi].0, ci)) =~= y);
        }
    }
}

proof fn lemma_prefix_fixed<E: ExecutionEnv>(t: Entries, rules: Seq<Seq<Seq<char>>>, k: int, dir: Seq<char>, env: &E)
    requires
        stable_env(env),
        heads_distinct(rules),
        0 <= k <= rules.len(),
        apply_rules(t, rules.subrange(0, k), dir, env) is Ok,
    ensures
        forall|i: int| 0 <= i < k ==> fixed_by(apply_rules(t, rules.subrange(0, k), dir, env)->Ok_0, #[trigger] rules[i], dir, env),
    decreases k,
{
    if k > 0 {
        let pre = rules.subrange(0, k);
        assert(pre.drop_last() =~= rules.subrange(0, k - 1));
        assert(pre.last() == rules[k - 1]);
        lemma_prefix_fixed(t, rules, k - 1, dir, env);
        let x = apply_rules(t, rules.subrange(0, k - 1), dir, env)->Ok_0;
        lemma_rule_stable(x, rules[k - 1], dir, env);
        assert forall|i: int| 0 <= i < k implies fixed_by(apply_rules(t, pre, dir, env)->Ok_0, #[trigger] rules[i], dir, env) by {
            if i < k - 1 {
                assert(rules[i][0] != rules[k - 1][0]);
                lemma_other_rule_keeps_fixed(x, rules[i], rules[k - 1], dir, env);
            }
        }
    }
}

proof fn lemma_all_fixed<E: ExecutionEnv>(x: Entries, rules: Seq<Seq<Seq<char>>>, dir: Seq<char>, env: &E)
    requires
        forall|i: int| 0 <= i < rules.len() ==> fixed_by(x, #[trigger] rules[i], dir, env),
    ensures
        apply_rules(x, rules, dir, env) == Ok::<Entries, NormalizeFault>(x),
    decreases rules.len(),
{
    if rules.len() > 0 {
        let init = rules.drop_last();
        assert forall|i: int| 0 <= i < init.len() implies fixed_by(x, #[trigger] init[i], dir, env) by {
            assert(init[i] == rules[i]);
        }
        lemma_all_fixed(x, init, dir, env);
        assert(fixed_by(x, rules[rules.len() - 1], dir, env));
    }
}

/// Rules with distinct first keys, applied in such an environment to what
/// they gave, change nothing.
pub proof fn lemma_rules_stable<E: ExecutionEnv>(t: Entries, rules: Seq<Seq<Seq<char>>>, dir: Seq<char>, env: &E)
    requires
        stable_env(env),
        heads_distinct(rules),
        apply_rules(t, rules, dir, env) is Ok,
    ensures
        apply_rules(apply_rules(t, rules, dir, env)->Ok_0, rules, dir, env) == apply_rules(t, rules, dir, env),
{
    assert(rules.subrange(0, rules.len() as int) =~= rules);
    lemma_prefix_fixed(t, rules, rules.len() as int, dir, env);
    lemma_all_fixed(apply_rules(t, rules, dir, env)->Ok_0, rules, dir, env);
}

} // verus!
