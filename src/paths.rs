//! Paths as strings, with `/` as the separator.
use vstd::prelude::*;

use crate::text::string_of;

verus! {

/// `p` read relative to `base`: an absolute `p` stands alone, else it is
/// appended after a separator.
pub open spec fn join(base: Seq<char>, p: Seq<char>) -> Seq<char> {
    if p.len() > 0 && p[0] == '/' {
        p
    } else if base.len() == 0 {
        p
    } else if base.last() == '/' {
        base + p
    } else {
        base + seq!['/'] + p
    }
}

pub open spec fn is_absolute(p: Seq<char>) -> bool {
    p.len() > 0 && p[0] == '/'
}

/// Join two paths.
pub fn join_path(base: &str, p: &str) -> (r: String)
    ensures
        r@ == join(base@, p@),
{
    let b = crate::text::chars_of(base);
    let q = crate::text::chars_of(p);
    if q.len() > 0 && q[0] == '/' {
        return string_of(q.as_slice());
    }
    let mut out = b.clone();
    if b.len() > 0 && b[b.len() - 1] != '/' {
        out.push('/');
    }
    let mut i: usize = 0;
    let ghost start = out@;
    while i < q.len()
        invariant
            i <= q@.len(),
            out@ == start + q@.subrange(0, i as int),
        decreases q@.len() - i,
    {
        out.push(q[i]);
        i = i + 1;
    }
    assert(q@.subrange(0, q@.len() as int) =~= q@);
    assert(out@ =~= join(base@, p@));
    string_of(out.as_slice())
}

/// The stem of a path's final component, where it has one.
pub uninterp spec fn path_stem(p: Seq<char>) -> Option<Seq<char>>;

/// The path without its final component, where it has one.
pub uninterp spec fn path_parent(p: Seq<char>) -> Option<Seq<char>>;

/// Whether the final component of a path has an extension.
pub uninterp spec fn path_has_extension(p: Seq<char>) -> bool;

/// Relies on `std::path::Path::file_stem`: the result depends on the path
/// alone.
#[verifier::external_body]
pub(crate) fn file_stem(p: &str) -> (r: Option<String>)
    ensures
        r is Some <==> path_stem(p@) is Some,
        r is Some ==> r->Some_0@ == path_stem(p@)->Some_0,
{
    std::path::Path::new(p).file_stem().map(|s| s.to_string_lossy().into_owned())
}

/// Relies on `std::path::Path::parent`: the result depends on the path alone.
#[verifier::external_body]
pub(crate) fn parent(p: &str) -> (r: Option<String>)
    ensures
        r is Some <==> path_parent(p@) is Some,
        r is Some ==> r->Some_0@ == path_parent(p@)->Some_0,
{
    std::path::Path::new(p).parent().map(|s| s.to_string_lossy().into_owned())
}

/// Relies on `std::path::Path::extension`: the result depends on the path
/// alone.
#[verifier::external_body]
pub(crate) fn has_extension(p: &str) -> (r: bool)
    ensures
        r == path_has_extension(p@),
{
    std::path::Path::new(p).extension().is_some()
}

} // verus!
