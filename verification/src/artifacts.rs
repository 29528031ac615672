//! Placement of output artifacts under the `artifacts/` directory.

use vstd::prelude::*;
use vstd::string::*;

verus! {

/// A bare filename: one with no directory part. Separators may only form a
/// trailing run ("dir/" still names no parent directory, exactly as a
/// path's parent component being empty does).
pub open spec fn is_bare(s: Seq<char>) -> bool {
    forall|i: int, j: int|
        #![trigger s[i], s[j]]
        0 <= i <= j < s.len() && s[i] == '/' ==> s[j] == '/'
}

/// Resolves a path to the `artifacts/<category>` directory if it is a bare
/// filename; a path that already names a directory is kept as it is.
pub fn resolve_artifact_path(path: String, category: &str) -> (r: String)
    ensures
        is_bare(path@) ==> r@ == "artifacts/"@ + category@ + "/"@ + path@,
        !is_bare(path@) ==> r@ == path@,
{
    let n = path.as_str().unicode_len();
    let mut seen_slash = false;
    let mut bare = true;
    let mut i: usize = 0;
    while i < n
        invariant
            i <= n,
            n == path@.len(),
            seen_slash ==> exists|k: int| 0 <= k < i && path@[k] == '/',
            !seen_slash ==> forall|k: int| 0 <= k < i ==> path@[k] != '/',
            bare ==> forall|k: int, j: int|
                #![trigger path@[k], path@[j]]
                0 <= k <= j < i && path@[k] == '/' ==> path@[j] == '/',
            !bare ==> exists|k: int, j: int|
                #![trigger path@[k], path@[j]]
                0 <= k < j < i && path@[k] == '/' && path@[j] != '/',
        decreases n - i,
    {
        let c = path.as_str().get_char(i);
        if c == '/' {
            seen_slash = true;
        } else if seen_slash {
            bare = false;
        }
        i = i + 1;
    }
    if bare {
        let mut r = String::from_str("artifacts/");
        r.append(category);
        r.append("/");
        r.append(path.as_str());
        r
    } else {
        assert(!is_bare(path@));
        path
    }
}

} // verus!
