//! Where the HTTP executor may write a download.
use vstd::prelude::*;

use crate::engine::builder::path_join;
use crate::engine::package::{pieces, split_at_char};
use crate::reports::render::lines_view;

verus! {

/// The name the HTTP executor is registered under.
pub const HTTP_EXECUTOR_NAME: &'static str = "http@xuehua/executors";

/// Why a download was refused.
#[derive(Debug, Clone, Copy, PartialEq, Eq, Structural)]
pub enum HttpPathError {
    /// The path refers to a parent directory.
    InvalidPath,
}

/// Whether a `/`-separated path has a `..` component.
pub open spec fn has_parent_reference(path: Seq<char>) -> bool {
    exists|i: int| 0 <= i < pieces(path, '/').len() && #[trigger] pieces(path, '/')[i] == ".."@
}

/// `path` resolved against `root`: an absolute path stands alone, a relative
/// one is joined to the root.
pub open spec fn resolved_path(root: Seq<char>, path: Seq<char>) -> Seq<char> {
    if path.len() > 0 && path[0] == '/' {
        path
    } else {
        path_join(root, path)
    }
}

/// The file a download to `path` is written to in the build `environment`;
/// a path with a `..` component is refused.
pub fn download_path(environment: &str, path: &str) -> (r: Result<String, HttpPathError>)
    ensures
        has_parent_reference(path@) ==> r == Err::<String, HttpPathError>(HttpPathError::InvalidPath),
        !has_parent_reference(path@) ==> (r matches Ok(full) && full@ == resolved_path(environment@, path@)),
{
    let parts = split_at_char(path, '/');
    let ghost view = lines_view(parts@);
    let mut i: usize = 0;
    while i < parts.len()
        invariant
            view == lines_view(parts@),
            view == pieces(path@, '/'),
            i <= parts@.len(),
            forall|j: int| 0 <= j < i ==> view[j] != ".."@,
        decreases parts@.len() - i,
    {
        if parts[i] == String::from_str("..") {
            proof {
                assert(view[i as int] == ".."@);
            }
            return Err(HttpPathError::InvalidPath);
        }
        i = i + 1;
    }
    let len = path.unicode_len();
    if len > 0 && path.get_char(0) == '/' {
        return Ok(String::from_str(path));
    }
    let root_len = environment.unicode_len();
    let mut full = String::from_str(environment);
    if root_len == 0 || environment.get_char(root_len - 1) == '/' {
        full.append(path);
    } else {
        full.append("/");
        full.append(path);
    }
    Ok(full)
}

} // verus!
