//! The memory files a consolidation agent maintains: paths given either
//! relative to the memory root or, as the consolidation prompt names them,
//! absolute under it.

use vstd::prelude::*;
use crate::text::chars_of;
use crate::text::concat_chars;
use crate::text::string_of;

verus! {

/// Whether `path` is absolute on this platform.
pub uninterp spec fn path_is_absolute(path: Seq<char>) -> bool;

/// What is left of `path` after the root `root`, if `path` lies under it
/// (compared component by component, as the platform parses paths).
pub uninterp spec fn path_under(path: Seq<char>, root: Seq<char>) -> Option<Seq<char>>;

/// The components of a relative path, as the platform parses it.
pub uninterp spec fn path_components(path: Seq<char>) -> Seq<Seq<char>>;

pub open spec fn opt_view(o: Option<String>) -> Option<Seq<char>> {
    match o {
        Some(s) => Some(s@),
        None => None,
    }
}

/// Trusted: `std::path::Path::is_absolute` on `path`; its result is named,
/// nothing more is claimed.
#[verifier::external_body]
fn is_absolute(path: &str) -> (r: bool)
    ensures
        r == path_is_absolute(path@),
{
    std::path::Path::new(path).is_absolute()
}

/// Trusted: `std::path::Path::strip_prefix` of `root` from `path`, the rest
/// given back as a string (it is a part of `path`, so it is valid text);
/// `None` when `path` does not start with `root`. The result is named.
#[verifier::external_body]
fn strip_root(path: &str, root: &str) -> (r: Option<String>)
    ensures
        opt_view(r) == path_under(path@, root@),
{
    std::path::Path::new(path).strip_prefix(root).ok().map(|rest| rest.to_string_lossy().into_owned())
}

/// Trusted: `std::path::Path::components` of `path`, each given back as a
/// string. The result is named.
#[verifier::external_body]
fn components(path: &str) -> (r: Vec<String>)
    ensures
        r@.map_values(|s: String| s@) == path_components(path@),
{
    std::path::Path::new(path).components().map(|c| c.as_os_str().to_string_lossy().into_owned()).collect()
}

/// `parts` joined by `/`.
pub open spec fn join_slash(parts: Seq<Seq<char>>) -> Seq<char>
    decreases parts.len(),
{
    if parts.len() == 0 {
        seq![]
    } else if parts.len() == 1 {
        parts[0]
    } else {
        join_slash(parts.drop_last()) + seq!['/'] + parts.last()
    }
}

/// The components of a path joined by `/`.
pub fn join_parts(parts: &Vec<String>) -> (r: String)
    ensures
        r@ == join_slash(parts@.map_values(|s: String| s@)),
{
    let ghost ps = parts@.map_values(|s: String| s@);
    let mut out: Vec<char> = Vec::new();
    let mut i: usize = 0;
    while i < parts.len()
        invariant
            i <= parts.len(),
            ps == parts@.map_values(|s: String| s@),
            out@ == join_slash(ps.take(i as int)),
        decreases parts.len() - i,
    {
        proof {
            assert(ps.take(i + 1).drop_last() =~= ps.take(i as int));
            assert(ps.take(i + 1).last() == parts@[i as int]@);
        }
        if i > 0 {
            out.push('/');
        }
        let ghost before = out@;
        out = concat_chars(&out, &chars_of(parts[i].as_str()));
        proof {
            if i == 0 {
                assert(out@ =~= ps.take(1)[0]);
            } else {
                assert(out@ =~= join_slash(ps.take(i as int)) + seq!['/'] + parts@[i as int]@);
            }
        }
        i = i + 1;
    }
    assert(ps.take(parts.len() as int) =~= ps);
    string_of(&out)
}

/// The memory-file backend of a consolidation agent, rooted at its working
/// directory.
pub struct MaintenanceBackend {
    pub root: String,
}

pub open spec fn relative_spec(root: Seq<char>, path: Seq<char>) -> Seq<char> {
    if !path_is_absolute(path) {
        path
    } else {
        match path_under(path, root) {
            Some(rest) => join_slash(path_components(rest)),
            None => path,
        }
    }
}

impl MaintenanceBackend {
    pub fn new(root: String) -> (r: Self)
        ensures
            r.root@ == root@,
    {
        MaintenanceBackend { root }
    }

    /// `path` relative to the memory root, with `/` separators; a relative
    /// path, or one not under the root, is left as it is, so the backend
    /// rejects it as it normally would.
    pub fn relative(&self, path: &str) -> (r: String)
        ensures
            r@ == relative_spec(self.root@, path@),
    {
        if !is_absolute(path) {
            return string_of(&chars_of(path));
        }
        match strip_root(path, self.root.as_str()) {
            Some(rest) => join_parts(&components(rest.as_str())),
            None => string_of(&chars_of(path)),
        }
    }
}

} // verus!
