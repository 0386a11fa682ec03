//! Templates with `%KEY%` placeholders, `%%` standing for a literal `%`.
use vstd::prelude::*;

use crate::artifacts::opt_view;
use crate::paths::{file_stem, path_stem};
use crate::text::{chars_of, str_eq, string_of};

verus! {

/// A piece of a template.
#[derive(Debug, PartialEq)]
pub enum Piece {
    /// Text copied as it is.
    Lit(String),
    /// A placeholder to replace.
    Key(String),
}

/// The model of a `Piece`.
pub enum Part {
    Lit(Seq<char>),
    Key(Seq<char>),
}

impl View for Piece {
    type V = Part;

    open spec fn view(&self) -> Part {
        match self {
            Piece::Lit(s) => Part::Lit(s@),
            Piece::Key(s) => Part::Key(s@),
        }
    }
}

/// Why a template could not be filled.
#[derive(Debug, PartialEq)]
pub enum FormatError<E> {
    /// A `%` without its closing `%`.
    Unclosed,
    /// The replacement of a placeholder failed.
    Replacement(E),
}

/// The position of the first `c` in `t` at or after `i`, or -1.
pub open spec fn find_from(t: Seq<char>, c: char, i: int) -> int
    decreases t.len() - i,
{
    if i < 0 || i >= t.len() {
        -1
    } else if t[i] == c {
        i
    } else {
        find_from(t, c, i + 1)
    }
}

/// The pieces of the template `t` from position `offset` on; `None` where a
/// `%` is not closed.
pub open spec fn scan(t: Seq<char>, offset: int) -> Option<Seq<Part>>
    decreases t.len() - offset,
{
    if offset < 0 || offset > t.len() {
        None
    } else {
        let start = find_from(t, '%', offset);
        if start < 0 {
            Some(seq![Part::Lit(t.subrange(offset, t.len() as int))])
        } else {
            let end = find_from(t, '%', start + 1);
            if end < 0 || start < offset || end <= start || end >= t.len() {
                None
            } else {
                let key = t.subrange(start + 1, end);
                let piece = if key.len() == 0 {
                    Part::Lit(seq!['%'])
                } else {
                    Part::Key(key)
                };
                match scan(t, end + 1) {
                    None => None,
                    Some(r) => Some(seq![Part::Lit(t.subrange(offset, start)), piece] + r),
                }
            }
        }
    }
}

pub open spec fn prepend(done: Seq<Part>, rest: Option<Seq<Part>>) -> Option<Seq<Part>> {
    match rest {
        Some(r) => Some(done + r),
        None => None,
    }
}

proof fn lemma_find_from_range(t: Seq<char>, c: char, i: int)
    ensures
        find_from(t, c, i) == -1 || (i <= find_from(t, c, i) < t.len() && t[find_from(t, c, i)] == c),
    decreases t.len() - i,
{
    if 0 <= i < t.len() && t[i] != c {
        lemma_find_from_range(t, c, i + 1);
    }
}

fn find_char(t: &Vec<char>, c: char, i: usize) -> (r: Option<usize>)
    ensures
        match r {
            Some(p) => p as int == find_from(t@, c, i as int),
            None => find_from(t@, c, i as int) == -1,
        },
{
    let mut j: usize = i;
    if j >= t.len() {
        return None;
    }
    while j < t.len()
        invariant
            i <= j <= t@.len(),
            find_from(t@, c, i as int) == find_from(t@, c, j as int),
        decreases t@.len() - j,
    {
        if t[j] == c {
            return Some(j);
        }
        j = j + 1;
    }
    None
}

fn sub_string(t: &Vec<char>, from: usize, to: usize) -> (r: String)
    requires
        from <= to <= t@.len(),
    ensures
        r@ == t@.subrange(from as int, to as int),
{
    let mut v: Vec<char> = Vec::new();
    let mut i: usize = from;
    while i < to
        invariant
            from <= i <= to <= t@.len(),
            v@ == t@.subrange(from as int, i as int),
        decreases to - i,
    {
        v.push(t[i]);
        i = i + 1;
    }
    string_of(v.as_slice())
}

/// Split a template into its pieces.
pub fn template_pieces(template: &str) -> (r: Option<Vec<Piece>>)
    ensures
        match scan(template@, 0) {
            Some(ps) => r is Some && r->Some_0@.map_values(|p: Piece| p@) == ps,
            None => r is None,
        },
{
    let t = chars_of(template);
    let n = t.len();
    let mut out: Vec<Piece> = Vec::new();
    let mut offset: usize = 0;
    assert(out@.map_values(|p: Piece| p@) =~= Seq::<Part>::empty());
    assert(scan(t@, 0) == prepend(Seq::empty(), scan(t@, 0))) by {
        match scan(t@, 0) {
            Some(r) => {
                assert(Seq::<Part>::empty() + r =~= r);
            },
            None => {},
        }
    }
    loop
        invariant
            t@ == template@,
            n == t@.len(),
            offset <= n,
            scan(t@, 0) == prepend(out@.map_values(|p: Piece| p@), scan(t@, offset as int)),
        decreases n - offset,
    {
        proof {
            lemma_find_from_range(t@, '%', offset as int);
        }
        let start = match find_char(&t, '%', offset) {
            None => {
                let ghost before = out@.map_values(|p: Piece| p@);
                out.push(Piece::Lit(sub_string(&t, offset, n)));
                assert(out@.map_values(|p: Piece| p@) =~= before + seq![Part::Lit(t@.subrange(offset as int, n as int))]);
                return Some(out);
            },
            Some(s) => s,
        };
        proof {
            lemma_find_from_range(t@, '%', start + 1);
        }
        let end = match find_char(&t, '%', start + 1) {
            None => {
                return None;
            },
            Some(e) => e,
        };
        let ghost before = out@.map_values(|p: Piece| p@);
        let lit = sub_string(&t, offset, start);
        let key = sub_string(&t, start + 1, end);
        out.push(Piece::Lit(lit));
        if end == start + 1 {
            let mut pv: Vec<char> = Vec::new();
            pv.push('%');
            let pct = string_of(pv.as_slice());
            assert(pct@ =~= seq!['%']);
            out.push(Piece::Lit(pct));
            assert(out@.map_values(|p: Piece| p@) =~= before + seq![
                Part::Lit(t@.subrange(offset as int, start as int)),
                Part::Lit(seq!['%']),
            ]);
        } else {
            out.push(Piece::Key(key));
            assert(out@.map_values(|p: Piece| p@) =~= before + seq![
                Part::Lit(t@.subrange(offset as int, start as int)),
                Part::Key(t@.subrange(start + 1, end as int)),
            ]);
        }
        proof {
            match scan(t@, end + 1) {
                Some(r) => {
                    assert(before + (seq![Part::Lit(t@.subrange(offset as int, start as int)), out@.map_values(|p: Piece| p@).last()] + r)
                        =~= out@.map_values(|p: Piece| p@) + r);
                },
                None => {},
            }
        }
        offset = end + 1;
    }
}

/// The text of the pieces, the placeholder at position `i` replaced by
/// `vals[i]`.
pub open spec fn assemble(ps: Seq<Part>, vals: Seq<Seq<char>>) -> Seq<char>
    decreases ps.len(),
{
    if ps.len() == 0 {
        Seq::empty()
    } else {
        assemble(ps.drop_last(), vals) + match ps.last() {
            Part::Lit(s) => s,
            Part::Key(_) => vals[ps.len() - 1],
        }
    }
}

/// Whether `vals` holds, at the position of each placeholder of `ps`, a
/// value that `replacement` returned for its key.
pub open spec fn replaced_by<F: Fn(&str) -> Result<String, E>, E>(ps: Seq<Part>, vals: Seq<Seq<char>>, replacement: F) -> bool {
    forall|i: int|
        0 <= i < ps.len() && #[trigger] ps[i] is Key ==> exists|k: &str, v: String|
            k@ == ps[i]->Key_0 && v@ == vals[i] && replacement.ensures((k,), Ok::<String, E>(v))
}

fn push_str_chars(out: &mut Vec<char>, s: &str)
    ensures
        final(out)@ == old(out)@ + s@,
{
    let cs = chars_of(s);
    let mut i: usize = 0;
    while i < cs.len()
        invariant
            i <= cs@.len(),
            cs@ == s@,
            out@ == old(out)@ + cs@.subrange(0, i as int),
        decreases cs@.len() - i,
    {
        out.push(cs[i]);
        i = i + 1;
    }
    assert(cs@.subrange(0, i as int) =~= cs@);
}

proof fn lemma_assemble_prefix(ps: Seq<Part>, vals: Seq<Seq<char>>, vals2: Seq<Seq<char>>, n: int)
    requires
        0 <= n <= ps.len(),
        n <= vals.len(),
        n <= vals2.len(),
        vals2.subrange(0, n) == vals.subrange(0, n),
    ensures
        assemble(ps.subrange(0, n), vals) == assemble(ps.subrange(0, n), vals2),
    decreases n,
{
    if n > 0 {
        assert(ps.subrange(0, n).drop_last() =~= ps.subrange(0, n - 1));
        assert(vals2.subrange(0, n - 1) =~= vals.subrange(0, n - 1)) by {
            assert forall|j: int| 0 <= j < n - 1 implies #[trigger] vals2.subrange(0, n - 1)[j] == vals.subrange(0, n - 1)[j] by {
                assert(vals2.subrange(0, n)[j] == vals.subrange(0, n)[j]);
            }
        }
        lemma_assemble_prefix(ps, vals, vals2, n - 1);
        assert(vals2.subrange(0, n)[n - 1] == vals.subrange(0, n)[n - 1]);
    }
}

/// Whether each placeholder of `ps` before position `n` had a replacement
/// returned for its key.
pub open spec fn keys_replaced<F: Fn(&str) -> Result<String, E>, E>(ps: Seq<Part>, n: int, replacement: F) -> bool {
    forall|j: int|
        0 <= j < n && #[trigger] ps[j] is Key ==> exists|k: &str, v: String|
            k@ == ps[j]->Key_0 && replacement.ensures((k,), Ok::<String, E>(v))
}

proof fn lemma_no_percent(t: Seq<char>, i: int)
    requires
        !t.contains('%'),
    ensures
        find_from(t, '%', i) == -1,
    decreases t.len() - i,
{
    if 0 <= i < t.len() {
        assert(t[i] != '%');
        lemma_no_percent(t, i + 1);
    }
}

/// Whether some placeholder of `ps` had the replacement fail with `e`,
/// every placeholder before it having been replaced.
pub open spec fn first_failure<F: Fn(&str) -> Result<String, E>, E>(ps: Seq<Part>, replacement: F, e: E) -> bool {
    exists|i: int, k: &str|
        #![trigger ps[i], replacement.ensures((k,), Err::<String, E>(e))]
        0 <= i < ps.len() && ps[i] == Part::Key(k@) && replacement.ensures((k,), Err::<String, E>(e))
            && keys_replaced(ps, i, replacement)
}

/// Fill a template: each placeholder `%KEY%` is replaced by what
/// `replacement` returns for `KEY`, and `%%` by `%`. The first failed
/// replacement is returned as the error.
pub fn format_dynamic<F, E>(template: &str, replacement: F) -> (r: Result<String, FormatError<E>>)
    where
        F: Fn(&str) -> Result<String, E>,
    requires
        forall|k: &str| replacement.requires((k,)),
    ensures
        scan(template@, 0) is None <==> r matches Err(FormatError::Unclosed),
        scan(template@, 0) is Some && (forall|k: &str, x: Result<String, E>|
            #[trigger] replacement.ensures((k,), x) ==> x is Ok) ==> r is Ok,
        scan(template@, 0) matches Some(ps) && (forall|i: int| 0 <= i < ps.len() ==> !(#[trigger] ps[i] is Key))
            ==> r is Ok,
        !template@.contains('%') ==> r is Ok && r->Ok_0@ == template@,
        r matches Err(FormatError::Replacement(_)) ==> first_failure(
            scan(template@, 0)->Some_0,
            replacement,
            r->Err_0->Replacement_0,
        ),
        r is Ok ==> exists|vals: Seq<Seq<char>>|
            replaced_by(scan(template@, 0)->Some_0, vals, replacement) && #[trigger] assemble(
                scan(template@, 0)->Some_0,
                vals,
            ) == r->Ok_0@,
{
    let pieces = match template_pieces(template) {
        None => {
            proof {
                if !template@.contains('%') {
                    lemma_no_percent(template@, 0);
                }
            }
            return Err(FormatError::Unclosed);
        },
        Some(p) => p,
    };
    let ghost ps = pieces@.map_values(|p: Piece| p@);
    let ghost mut vals: Seq<Seq<char>> = Seq::empty();
    let mut res: Vec<char> = Vec::new();
    let mut i: usize = 0;
    assert(ps.subrange(0, 0) =~= Seq::<Part>::empty());
    proof {
        if !template@.contains('%') {
            lemma_no_percent(template@, 0);
            assert(template@.subrange(0, template@.len() as int) =~= template@);
            assert(ps =~= seq![Part::Lit(template@)]);
        }
    }
    while i < pieces.len()
        invariant
            !template@.contains('%') ==> ps == seq![Part::Lit(template@)],
            ps == pieces@.map_values(|p: Piece| p@),
            ps == scan(template@, 0)->Some_0,
            scan(template@, 0) is Some,
            forall|k: &str| replacement.requires((k,)),
            (forall|k: &str, x: Result<String, E>| #[trigger] replacement.ensures((k,), x) ==> x is Ok) ==> (
            forall|k: &str, x: Result<String, E>| #[trigger] replacement.ensures((k,), x) ==> x is Ok),
            i <= pieces@.len(),
            vals.len() == i,
            res@ == assemble(ps.subrange(0, i as int), vals),
            forall|j: int|
                0 <= j < i && #[trigger] ps[j] is Key ==> exists|k: &str, v: String|
                    k@ == ps[j]->Key_0 && v@ == vals[j] && replacement.ensures((k,), Ok::<String, E>(v)),
        decreases pieces@.len() - i,
    {
        assert(ps.subrange(0, i + 1).drop_last() =~= ps.subrange(0, i as int));
        assert(ps[i as int] == pieces@[i as int]@);
        match &pieces[i] {
            Piece::Lit(s) => {
                push_str_chars(&mut res, s.as_str());
                proof {
                    let nv = vals.push(Seq::empty());
                    assert(nv.subrange(0, i as int) =~= vals.subrange(0, i as int));
                    lemma_assemble_prefix(ps, vals, nv, i as int);
                    assert(vals =~= vals.subrange(0, i as int));
                    vals = nv;
                }
            },
            Piece::Key(k) => {
                let key = k.as_str();
                match replacement(key) {
                    Ok(v) => {
                        push_str_chars(&mut res, v.as_str());
                        proof {
                            let nv = vals.push(v@);
                            assert(nv.subrange(0, i as int) =~= vals.subrange(0, i as int));
                            lemma_assemble_prefix(ps, vals, nv, i as int);
                            assert(vals =~= vals.subrange(0, i as int));
                            vals = nv;
                        }
                    },
                    Err(e) => {
                        assert(keys_replaced(ps, i as int, replacement));
                        assert(ps[i as int] == Part::Key(key@));
                        assert(replacement.ensures((key,), Err::<String, E>(e)));
                        assert(first_failure(ps, replacement, e)) by {
                            assert(ps[i as int] == Part::Key(key@));
                        }
                        return Err(FormatError::Replacement(e));
                    },
                }
            },
        }
        i = i + 1;
    }
    assert(ps.subrange(0, i as int) =~= ps);
    let r = string_of(res.as_slice());
    assert(replaced_by(ps, vals, replacement));
    proof {
        if !template@.contains('%') {
            assert(ps.drop_last() =~= Seq::<Part>::empty());
            assert(assemble(ps, vals) == assemble(ps.drop_last(), vals) + template@);
            assert(r@ =~= template@);
        }
    }
    Ok(r)
}

/// The script templates of `new`.
pub const TEMPLATE_BIN: &'static str = r##"//! Executable %NAME%
//!
//! ```cargo
//! [dependencies]
//! # include additional dependencies here
//! ```

fn main() {
    println!("Hello world");
}
"##;

pub const TEMPLATE_LIB: &'static str = r##"//! Shared library %NAME%
//!
//! This library can be built with `cargo wop`:
//!
//! ```bash
//! cargo wop %NAME%.rs
//! ```
//!
//! ```cargo
//! [lib]
//! name = "%NAME%"
//! crate-type = ["cdylib"]
//!
//! [dependencies]
//! # include additional dependencies here
//!
//! [cargo-wop]
//! default-action = ["build"]
//! ```

#[no_mangle]
pub extern "C" fn add(a: i64, b: i64) -> i64 {
    a + b
}
"##;

pub const TEMPLATE_PYMODULE: &'static str = r##"//! Python extension module %NAME%
//!
//! This module can be built with `cargo wop` and imported with Python:
//!
//! ```bash
//! cargo wop %NAME%.rs
//! python -c 'import %NAME%'
//! ```
//!
//! ```cargo
//! [lib]
//! name = "%NAME%"
//! crate-type = ["cdylib"]
//!
//! [dependencies]
//! pyo3 = { version = "0.13", features = ["extension-module"] }
//!
//! [cargo-wop]
//! default-action = ["build"]
//! filter = { "lib%NAME%.so" = "%NAME%.so" }
//! ```
#![allow(unused)]
fn main() {
    use pyo3::prelude::*;
    use pyo3::wrap_pyfunction;

    #[pyfunction]
    fn add(a: i64, b: i64) -> PyResult<i64> {
        Ok(a + b)
    }

    #[pymodule]
    fn %NAME%(py: Python, m: &PyModule) -> PyResult<()> {
        m.add_function(wrap_pyfunction!(add, m)?)?;
        Ok(())
    }
}
"##;

pub const TEMPLATE_WASM: &'static str = r##"//! WASM module %NAME%
//!
//! This library can be built with `cargo wop`:
//!
//! ```bash
//! cargo wop %NAME%.rs
//! ```
//!
//! ```cargo
//! [lib]
//! name = "%NAME%"
//! crate-type = ["cdylib"]
//!
//! [dependencies]
//! # include additional dependencies here
//!
//! [cargo-wop]
//! default-action = ["build", "--target", "wasm32-unknown-unknown"]
//! ```

#[no_mangle]
pub extern "C" fn add(a: i64, b: i64) -> i64 {
    a + b
}
"##;

/// The text of the template of the given name.
pub open spec fn template_text(name: Seq<char>) -> Option<Seq<char>> {
    if name == "--bin"@ {
        Some(TEMPLATE_BIN@)
    } else if name == "--lib"@ {
        Some(TEMPLATE_LIB@)
    } else if name == "--pymodule"@ {
        Some(TEMPLATE_PYMODULE@)
    } else if name == "--wasm"@ {
        Some(TEMPLATE_WASM@)
    } else {
        None
    }
}

/// Why a new script could not be rendered.
#[derive(Debug, PartialEq)]
pub enum TemplateError {
    /// No template has the given name.
    UnknownTemplate(String),
    /// The template has a `%` without its closing `%`.
    Unclosed,
    /// The template names a placeholder other than `NAME`.
    UnknownPattern(String),
    /// The target path has no file stem.
    NoStem,
}

/// The model of `TemplateError`.
pub enum TemplateFault {
    UnknownTemplate(Seq<char>),
    Unclosed,
    UnknownPattern(Seq<char>),
    NoStem,
}

impl View for TemplateError {
    type V = TemplateFault;

    open spec fn view(&self) -> TemplateFault {
        match self {
            TemplateError::UnknownTemplate(s) => TemplateFault::UnknownTemplate(s@),
            TemplateError::Unclosed => TemplateFault::Unclosed,
            TemplateError::UnknownPattern(s) => TemplateFault::UnknownPattern(s@),
            TemplateError::NoStem => TemplateFault::NoStem,
        }
    }
}

/// The pieces with each `NAME` placeholder replaced by the target's stem;
/// the first failing placeholder decides the error.
pub open spec fn rendered(ps: Seq<Part>, stem: Option<Seq<char>>) -> Result<Seq<char>, TemplateFault>
    decreases ps.len(),
{
    if ps.len() == 0 {
        Ok(Seq::empty())
    } else {
        match rendered(ps.drop_last(), stem) {
            Err(e) => Err(e),
            Ok(a) => match ps.last() {
                Part::Lit(s) => Ok(a + s),
                Part::Key(k) => if k != "NAME"@ {
                    Err(TemplateFault::UnknownPattern(k))
                } else {
                    match stem {
                        Some(n) => Ok(a + n),
                        None => Err(TemplateFault::NoStem),
                    }
                },
            },
        }
    }
}

/// What rendering a new script gives.
pub open spec fn new_file_spec(template: Seq<char>, target: Seq<char>) -> Result<Seq<char>, TemplateFault> {
    match template_text(template) {
        None => Err(TemplateFault::UnknownTemplate(template)),
        Some(t) => match scan(t, 0) {
            None => Err(TemplateFault::Unclosed),
            Some(ps) => rendered(ps, path_stem(target)),
        },
    }
}

proof fn lemma_rendered_err(ps: Seq<Part>, k: int, stem: Option<Seq<char>>)
    requires
        0 <= k <= ps.len(),
        rendered(ps.subrange(0, k), stem) is Err,
    ensures
        rendered(ps, stem) == rendered(ps.subrange(0, k), stem),
    decreases ps.len() - k,
{
    if k < ps.len() {
        assert(ps.subrange(0, k + 1).drop_last() =~= ps.subrange(0, k));
        lemma_rendered_err(ps, k + 1, stem);
    } else {
        assert(ps.subrange(0, k) =~= ps);
    }
}

/// Render the source of a new script from the template of the given name:
/// each `%NAME%` becomes the file stem of the target path.
pub fn render_new_file(template: &str, target: &str) -> (r: Result<String, TemplateError>)
    ensures
        match new_file_spec(template@, target@) {
            Ok(s) => r is Ok && r->Ok_0@ == s,
            Err(e) => r is Err && r->Err_0@ == e,
        },
{
    let text = if str_eq(template, "--bin") {
        TEMPLATE_BIN
    } else if str_eq(template, "--lib") {
        TEMPLATE_LIB
    } else if str_eq(template, "--pymodule") {
        TEMPLATE_PYMODULE
    } else if str_eq(template, "--wasm") {
        TEMPLATE_WASM
    } else {
        return Err(TemplateError::UnknownTemplate(template.to_owned()));
    };
    let pieces = match template_pieces(text) {
        None => {
            return Err(TemplateError::Unclosed);
        },
        Some(p) => p,
    };
    let stem = file_stem(target);
    let ghost ps = pieces@.map_values(|p: Piece| p@);
    let ghost st = opt_view(stem);
    assert(st == path_stem(target@));
    let mut res: Vec<char> = Vec::new();
    let mut i: usize = 0;
    assert(ps.subrange(0, 0) =~= Seq::<Part>::empty());
    while i < pieces.len()
        invariant
            ps == pieces@.map_values(|p: Piece| p@),
            new_file_spec(template@, target@) == rendered(ps, st),
            st == opt_view(stem),
            i <= pieces@.len(),
            rendered(ps.subrange(0, i as int), st) == Ok::<Seq<char>, TemplateFault>(res@),
        decreases pieces@.len() - i,
    {
        assert(ps.subrange(0, i + 1).drop_last() =~= ps.subrange(0, i as int));
        assert(ps.subrange(0, i + 1).last() == pieces@[i as int]@);
        match &pieces[i] {
            Piece::Lit(s) => {
                push_str_chars(&mut res, s.as_str());
            },
            Piece::Key(k) => {
                if !str_eq(k.as_str(), "NAME") {
                    proof {
                        lemma_rendered_err(ps, i + 1, st);
                    }
                    return Err(TemplateError::UnknownPattern(k.clone()));
                }
                match &stem {
                    Some(n) => {
                        push_str_chars(&mut res, n.as_str());
                    },
                    None => {
                        proof {
                            lemma_rendered_err(ps, i + 1, st);
                        }
                        return Err(TemplateError::NoStem);
                    },
                }
            },
        }
        i = i + 1;
    }
    assert(ps.subrange(0, i as int) =~= ps);
    Ok(string_of(res.as_slice()))
}

} // verus!
