//! The decision whether a freshly generated project should get its own
//! version-control repository.

use vstd::prelude::*;

verus! {

/// Decides from the project directory's ancestry whether to initialize a
/// repository there: `ancestor_has_git_dir[k]` says whether the directory
/// itself (`k == 0`) or its `k`-th parent already holds a `.git` directory.
/// A new repository is wanted exactly when none of them does.
pub fn should_initialize_git_repo(ancestor_has_git_dir: &Vec<bool>) -> (r: bool)
    ensures
        r == !ancestor_has_git_dir@.contains(true),
{
    let n = ancestor_has_git_dir.len();
    let mut i: usize = 0;
    while i < n
        invariant
            n == ancestor_has_git_dir@.len(),
            0 <= i <= n,
            forall|k: int| 0 <= k < i ==> !ancestor_has_git_dir@[k],
        decreases n - i,
    {
        if ancestor_has_git_dir[i] {
            assert(ancestor_has_git_dir@.contains(true));
            return false;
        }
        i = i + 1;
    }
    assert(!ancestor_has_git_dir@.contains(true)) by {
        assert(forall|k: int|
            0 <= k < ancestor_has_git_dir@.len() ==> ancestor_has_git_dir@[k] != true);
    }
    true
}

} // verus!
