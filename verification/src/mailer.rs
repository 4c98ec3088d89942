use vstd::prelude::*;
use std::path::Path;
use crate::text::chars_vec;

verus! {

/// What std's `Path::extension` gives for the path `path`: the part of the
/// file name after its last dot, if it has one that does not start it.
pub uninterp spec fn path_extension(path: Seq<char>) -> Option<Seq<char>>;

/// std's `Path::extension` of a path given as a string.
///
/// Trusted: it claims that the result is `path_extension` of the path; the
/// extension of a valid UTF-8 path is valid UTF-8, so `to_string_lossy` changes
/// nothing.
#[verifier::external_body]
fn extension_of(path: &str) -> (r: Option<String>)
    ensures
        r matches Some(e) ==> path_extension(path@) == Some(e@),
        r is None ==> path_extension(path@) is None,
{
    match Path::new(path).extension() {
        Some(e) => Some(e.to_string_lossy().into_owned()),
        None => None,
    }
}

/// Do `a` and `b` hold the same characters?
pub fn same_text(a: &str, b: &str) -> (r: bool)
    ensures
        r == (a@ == b@),
{
    let x = chars_vec(a);
    let y = chars_vec(b);
    if x.len() != y.len() {
        return false;
    }
    let mut i: usize = 0;
    while i < x.len()
        invariant
            0 <= i <= x.len(),
            x.len() == y.len(),
            x@ == a@,
            y@ == b@,
            forall|k: int| 0 <= k < i ==> x@[k] == y@[k],
        decreases x.len() - i,
    {
        if x[i] != y[i] {
            return false;
        }
        i = i + 1;
    }
    assert(x@ =~= y@);
    true
}

/// Is the file at `path` one to send, that is, is its extension exactly
/// `ext`?
pub fn has_extension(path: &str, ext: &str) -> (r: bool)
    ensures
        r == (path_extension(path@) == Some(ext@)),
{
    match extension_of(path) {
        Some(e) => same_text(e.as_str(), ext),
        None => false,
    }
}

} // verus!
