//! The descriptor as a tree of strings, arrays, tables and other scalars.
use vstd::prelude::*;

verus! {

broadcast use vstd::std_specs::vec::group_vec_axioms;

#[verifier::external_type_specification]
#[verifier::external_body]
pub struct ExTomlValue(toml::Value);

#[verifier::external_type_specification]
#[verifier::external_body]
pub struct ExTomlDeError(toml::de::Error);

#[verifier::external_type_specification]
#[verifier::external_body]
pub struct ExTomlSerError(toml::ser::Error);

/// A value of the descriptor. Tables keep their entries in order.
#[derive(Debug, PartialEq)]
pub enum Node {
    Str(String),
    Array(Vec<Node>),
    Table(Vec<(String, Node)>),
    /// Any other scalar (integer, float, boolean, date), kept as parsed.
    Scalar(toml::Value),
}

/// The mathematical model of a `Node`.
pub enum Tree {
    Str(Seq<char>),
    Array(Seq<Tree>),
    Table(Seq<(Seq<char>, Tree)>),
    Scalar(toml::Value),
}

impl View for Node {
    type V = Tree;

    open spec fn view(&self) -> Tree
        decreases self,
    {
        match self {
            Node::Str(s) => Tree::Str(s@),
            Node::Array(a) => Tree::Array(
                Seq::new(
                    a@.len(),
                    |i: int|
                        if 0 <= i < a@.len() {
                            a@[i]@
                        } else {
                            Tree::Array(Seq::empty())
                        },
                ),
            ),
            Node::Table(t) => {
                let values = Seq::new(
                    t@.len(),
                    |i: int|
                        if 0 <= i < t@.len() {
                            t@[i].1@
                        } else {
                            Tree::Array(Seq::empty())
                        },
                );
                Tree::Table(Seq::new(t@.len(), |i: int| (t@[i].0@, values[i])))
            },
            Node::Scalar(x) => Tree::Scalar(*x),
        }
    }
}

pub type Entries = Seq<(Seq<char>, Tree)>;

/// The model of a table's entries.
pub open spec fn entries_of(t: Seq<(String, Node)>) -> Entries {
    Seq::new(
        t.len(),
        |i: int|
            if 0 <= i < t.len() {
                (t[i].0@, t[i].1@)
            } else {
                (Seq::empty(), Tree::Array(Seq::empty()))
            },
    )
}

/// The model of an array's items.
pub open spec fn items_of(a: Seq<Node>) -> Seq<Tree> {
    Seq::new(
        a.len(),
        |i: int|
            if 0 <= i < a.len() {
                a[i]@
            } else {
                Tree::Array(Seq::empty())
            },
    )
}

pub proof fn lemma_views(n: Node)
    ensures
        n matches Node::Table(t) ==> n@ == Tree::Table(entries_of(t@)),
        n matches Node::Array(a) ==> n@ == Tree::Array(items_of(a@)),
{
    match n {
        Node::Table(t) => {
            assert forall|i: int| 0 <= i < t@.len() implies n@->Table_0[i] == entries_of(t@)[i] by {}
            assert(n@->Table_0 =~= entries_of(t@));
        },
        Node::Array(a) => {
            assert(n@->Array_0 =~= items_of(a@));
        },
        _ => {},
    }
}

/// The position of the first entry with key `k`, or -1.
pub open spec fn key_pos(t: Entries, k: Seq<char>) -> int
    decreases t.len(),
{
    if t.len() == 0 {
        -1
    } else {
        let p = key_pos(t.drop_last(), k);
        if p >= 0 {
            p
        } else if t.last().0 == k {
            t.len() - 1
        } else {
            -1
        }
    }
}

pub open spec fn has_key(t: Entries, k: Seq<char>) -> bool {
    key_pos(t, k) >= 0
}

/// The value under key `k`.
pub open spec fn get(t: Entries, k: Seq<char>) -> Option<Tree> {
    if has_key(t, k) {
        Some(t[key_pos(t, k)].1)
    } else {
        None
    }
}

/// `t` with `v` under key `k`: in place where the key is present, else
/// appended.
pub open spec fn insert(t: Entries, k: Seq<char>, v: Tree) -> Entries {
    if has_key(t, k) {
        t.update(key_pos(t, k), (k, v))
    } else {
        t.push((k, v))
    }
}

/// `t` without its entry under key `k`.
pub open spec fn remove(t: Entries, k: Seq<char>) -> Entries {
    if has_key(t, k) {
        t.remove(key_pos(t, k))
    } else {
        t
    }
}

pub proof fn lemma_key_pos_range(t: Entries, k: Seq<char>)
    ensures
        -1 <= key_pos(t, k) < t.len(),
        key_pos(t, k) >= 0 ==> t[key_pos(t, k)].0 == k,
        key_pos(t, k) < 0 ==> forall|i: int| 0 <= i < t.len() ==> (#[trigger] t[i]).0 != k,
    decreases t.len(),
{
    if t.len() > 0 {
        lemma_key_pos_range(t.drop_last(), k);
        if key_pos(t, k) < 0 {
            assert forall|i: int| 0 <= i < t.len() implies (#[trigger] t[i]).0 != k by {
                if i < t.len() - 1 {
                    assert(t[i] == t.drop_last()[i]);
                }
            }
        }
    }
}

proof fn lemma_key_pos_prefix(t: Entries, k: Seq<char>, n: int)
    requires
        0 <= n <= t.len(),
        key_pos(t.subrange(0, n), k) >= 0,
    ensures
        key_pos(t, k) == key_pos(t.subrange(0, n), k),
    decreases t.len() - n,
{
    if n < t.len() {
        assert(t.subrange(0, n + 1).drop_last() =~= t.subrange(0, n));
        lemma_key_pos_prefix(t, k, n + 1);
    } else {
        assert(t.subrange(0, n) =~= t);
    }
}

/// Find the position of key `k` in a table.
pub fn table_find(t: &Vec<(String, Node)>, k: &str) -> (r: Option<usize>)
    ensures
        r == (if has_key(entries_of(t@), k@) {
            Some(key_pos(entries_of(t@), k@) as usize)
        } else {
            None::<usize>
        }),
        r matches Some(p) ==> p < t@.len() && p as int == key_pos(entries_of(t@), k@),
{
    let ghost e = entries_of(t@);
    let mut i: usize = 0;
    assert(e.subrange(0, 0).len() == 0);
    while i < t.len()
        invariant
            e == entries_of(t@),
            i <= t@.len(),
            key_pos(e.subrange(0, i as int), k@) == -1,
        decreases t@.len() - i,
    {
        assert(e.subrange(0, i + 1).drop_last() =~= e.subrange(0, i as int));
        if t[i].0 == k.to_owned() {
            proof {
                lemma_key_pos_prefix(e, k@, i + 1);
            }
            return Some(i);
        }
        i = i + 1;
    }
    assert(e.subrange(0, i as int) =~= e);
    None
}

/// Put `v` under key `k`.
pub fn table_insert(t: &mut Vec<(String, Node)>, k: String, v: Node)
    ensures
        entries_of(final(t)@) == insert(entries_of(old(t)@), k@, v@),
{
    proof {
        lemma_key_pos_range(entries_of(t@), k@);
    }
    match table_find(t, k.as_str()) {
        Some(p) => {
            let ghost kv = k@;
            let ghost vv = v@;
            t[p] = (k, v);
            assert(t@ == old(t)@.update(p as int, (t@[p as int].0, t@[p as int].1)));
            assert(t@[p as int].0@ == kv);
            assert(t@[p as int].1@ == vv);
            assert(entries_of(t@) =~= entries_of(old(t)@).update(p as int, (kv, vv)));
            assert(p as int == key_pos(entries_of(old(t)@), kv));
            assert(entries_of(t@) =~= insert(entries_of(old(t)@), kv, vv));
        },
        None => {
            t.push((k, v));
            assert(entries_of(t@) =~= insert(entries_of(old(t)@), k@, v@));
        },
    }
}

/// Take out the value under key `k`.
pub fn table_remove(t: &mut Vec<(String, Node)>, k: &str) -> (r: Option<Node>)
    ensures
        entries_of(final(t)@) == remove(entries_of(old(t)@), k@),
        match r {
            Some(n) => get(entries_of(old(t)@), k@) == Some(n@),
            None => get(entries_of(old(t)@), k@) is None,
        },
{
    proof {
        lemma_key_pos_range(entries_of(t@), k@);
    }
    match table_find(t, k) {
        Some(p) => {
            let (_, n) = t.remove(p);
            assert(t@ == old(t)@.remove(p as int));
            assert(entries_of(t@) =~= entries_of(old(t)@).remove(p as int));
            assert(p as int == key_pos(entries_of(old(t)@), k@));
            assert(entries_of(t@) =~= remove(entries_of(old(t)@), k@));
            Some(n)
        },
        None => None,
    }
}

pub proof fn lemma_same_keys(t1: Entries, t2: Entries, k: Seq<char>)
    requires
        t1.len() == t2.len(),
        forall|i: int| 0 <= i < t1.len() ==> (#[trigger] t1[i]).0 == t2[i].0,
    ensures
        key_pos(t1, k) == key_pos(t2, k),
    decreases t1.len(),
{
    if t1.len() > 0 {
        assert forall|i: int| 0 <= i < t1.len() - 1 implies (#[trigger] t1.drop_last()[i]).0 == t2.drop_last()[i].0 by {
            assert(t1.drop_last()[i] == t1[i]);
            assert(t2.drop_last()[i] == t2[i]);
        }
        lemma_same_keys(t1.drop_last(), t2.drop_last(), k);
    }
}

/// After `insert`, the key is present, in the same place if it was before,
/// and holds the inserted value.
pub proof fn lemma_insert(t: Entries, k: Seq<char>, v: Tree)
    ensures
        has_key(insert(t, k, v), k),
        key_pos(insert(t, k, v), k) == if has_key(t, k) { key_pos(t, k) } else { t.len() as int },
        get(insert(t, k, v), k) == Some(v),
{
    lemma_key_pos_range(t, k);
    if has_key(t, k) {
        let u = insert(t, k, v);
        assert forall|i: int| 0 <= i < t.len() implies (#[trigger] t[i]).0 == u[i].0 by {}
        lemma_same_keys(t, u, k);
    } else {
        assert(t.push((k, v)).drop_last() =~= t);
    }
}

/// The value under key `k`.
pub fn table_get<'a>(t: &'a Vec<(String, Node)>, k: &str) -> (r: Option<&'a Node>)
    ensures
        match r {
            Some(n) => get(entries_of(t@), k@) == Some(n@),
            None => get(entries_of(t@), k@) is None,
        },
{
    proof {
        lemma_key_pos_range(entries_of(t@), k@);
    }
    match table_find(t, k) {
        None => None,
        Some(p) => {
            assert(entries_of(t@)[p as int] == (t@[p as int].0@, t@[p as int].1@));
            Some(&t[p].1)
        },
    }
}

/// The value under key `k` of a table; `None` for a value of another kind.
pub open spec fn lookup(v: Tree, k: Seq<char>) -> Option<Tree> {
    match v {
        Tree::Table(t) => get(t, k),
        _ => None,
    }
}

/// The value under key `k` of a table; `None` for a value of another kind.
pub fn node_get<'a>(v: &'a Node, k: &str) -> (r: Option<&'a Node>)
    ensures
        match r {
            Some(n) => lookup(v@, k@) == Some(n@),
            None => lookup(v@, k@) is None,
        },
{
    proof {
        lemma_views(*v);
    }
    match v {
        Node::Table(t) => table_get(t, k),
        _ => None,
    }
}

/// Take out the entry under key `k`, leaving its position free.
pub fn table_take(t: &mut Vec<(String, Node)>, k: &str) -> (r: Option<(usize, String, Node)>)
    ensures
        match r {
            None => !has_key(entries_of(old(t)@), k@) && final(t)@ == old(t)@,
            Some((p, key, v)) => {
                &&& has_key(entries_of(old(t)@), k@)
                &&& p == key_pos(entries_of(old(t)@), k@)
                &&& p < old(t)@.len()
                &&& key@ == k@
                &&& get(entries_of(old(t)@), k@) == Some(v@)
                &&& final(t)@ == old(t)@.remove(p as int)
                &&& (key, v) == old(t)@[p as int]
            },
        },
{
    proof {
        lemma_key_pos_range(entries_of(t@), k@);
    }
    match table_find(t, k) {
        None => None,
        Some(p) => {
            assert(p as int == key_pos(entries_of(t@), k@));
            assert(entries_of(t@)[p as int] == (t@[p as int].0@, t@[p as int].1@));
            let (key, v) = t.remove(p);
            Some((p, key, v))
        },
    }
}

/// Put an entry taken by `table_take` back in its place.
pub fn table_put_back(t: &mut Vec<(String, Node)>, p: usize, key: String, v: Node, Ghost(orig): Ghost<Seq<(String, Node)>>)
    requires
        p == key_pos(entries_of(orig), key@),
        0 <= p < orig.len(),
        old(t)@ == orig.remove(p as int),
    ensures
        entries_of(final(t)@) == insert(entries_of(orig), key@, v@),
{
    let ghost kv = key@;
    let ghost vv = v@;
    t.insert(p, (key, v));
    assert(entries_of(t@) =~= entries_of(orig).update(p as int, (kv, vv)));
}

/// Whether no two entries of a table have the same key.
pub open spec fn unique_keys(t: Entries) -> bool {
    forall|i: int, j: int| 0 <= i < j < t.len() ==> (#[trigger] t[i]).0 != (#[trigger] t[j]).0
}

/// In a table with unique keys, the removed key is gone.
pub proof fn lemma_remove_unique(t: Entries, k: Seq<char>)
    requires
        unique_keys(t),
    ensures
        !has_key(remove(t, k), k),
{
    lemma_key_pos_range(t, k);
    let u = remove(t, k);
    lemma_key_pos_range(u, k);
    if has_key(t, k) && has_key(u, k) {
        let p = key_pos(t, k);
        let q = key_pos(u, k);
        if q < p {
            assert(u[q] == t[q]);
        } else {
            assert(u[q] == t[q + 1]);
        }
    }
}

/// The document that a TOML text denotes, where it parses.
pub uninterp spec fn toml_parse_of(text: Seq<char>) -> Option<Tree>;

/// The TOML text that a document is written as, where it can be written.
pub uninterp spec fn toml_text_of(doc: Tree) -> Option<Seq<char>>;

/// Turns a parsed `toml::Value` into a node, variant by variant.
#[verifier::external_body]
fn node_from_toml(v: toml::Value) -> Node {
    match v {
        toml::Value::String(s) => Node::Str(s),
        toml::Value::Array(a) => Node::Array(a.into_iter().map(node_from_toml).collect()),
        toml::Value::Table(t) => Node::Table(t.into_iter().map(|(k, x)| (k, node_from_toml(x))).collect()),
        other => Node::Scalar(other),
    }
}

/// Turns a node back into a `toml::Value`, variant by variant.
#[verifier::external_body]
fn node_to_toml(n: Node) -> toml::Value {
    match n {
        Node::Str(s) => toml::Value::String(s),
        Node::Array(a) => toml::Value::Array(a.into_iter().map(node_to_toml).collect()),
        Node::Table(t) => toml::Value::Table(t.into_iter().map(|(k, x)| (k, node_to_toml(x))).collect()),
        Node::Scalar(x) => x,
    }
}

/// Relies on `toml::from_str` into a `toml::Value`: the result depends on
/// the text alone, and the value's table visitor refuses a duplicate key.
#[verifier::external_body]
pub(crate) fn parse_toml(text: &str) -> (r: Result<Node, toml::de::Error>)
    ensures
        r is Ok <==> toml_parse_of(text@) is Some,
        r is Ok ==> r->Ok_0@ == toml_parse_of(text@)->Some_0,
        r is Ok && r->Ok_0@ is Table ==> unique_keys(r->Ok_0@->Table_0),
{
    toml::from_str::<toml::Value>(text).map(node_from_toml)
}

/// Relies on `toml::to_string`: the text depends on the document alone.
#[verifier::external_body]
pub(crate) fn render_toml(doc: Node) -> (r: Result<String, toml::ser::Error>)
    ensures
        r is Ok <==> toml_text_of(doc@) is Some,
        r is Ok ==> r->Ok_0@ == toml_text_of(doc@)->Some_0,
{
    toml::to_string(&node_to_toml(doc))
}

/// Write a manifest as TOML text.
pub fn render_manifest(manifest: Node) -> (r: Result<String, toml::ser::Error>)
    ensures
        r is Ok <==> toml_text_of(manifest@) is Some,
        r is Ok ==> r->Ok_0@ == toml_text_of(manifest@)->Some_0,
{
    render_toml(manifest)
}

} // verus!
