use crate::step::opt_view;
use vstd::prelude::*;

verus! {

/// `part` adjoined to `base`: an absolute part replaces the base; otherwise a
/// `/` separates them unless the base is empty or already ends in one.
pub open spec fn joined_path(base: Seq<char>, part: Seq<char>) -> Seq<char> {
    if part.len() > 0 && part[0] == '/' {
        part
    } else if base.len() > 0 && base.last() != '/' {
        base + seq!['/'] + part
    } else {
        base + part
    }
}

/// What `camino::Utf8Path::parent` gives for a path.
pub uninterp spec fn path_parent_of(p: Seq<char>) -> Option<Seq<char>>;

/// Relies on `camino::Utf8Path::join`, which is `std::path::Path::join` (a
/// `PathBuf::push` on a copy of the base): on Unix an absolute part replaces
/// the base, and a relative one follows it after a separator.
#[verifier::external_body]
pub(crate) fn path_join(base: &str, part: &str) -> (r: String)
    ensures
        r@ == joined_path(base@, part@),
{
    camino::Utf8Path::new(base).join(part).into_string()
}

/// Relies on `camino::Utf8Path::parent`: the path without its last component.
#[verifier::external_body]
pub(crate) fn path_parent(p: &str) -> (r: Option<String>)
    ensures
        opt_view(r) == path_parent_of(p@),
{
    camino::Utf8Path::new(p).parent().map(|q| q.as_str().to_owned())
}

} // verus!
