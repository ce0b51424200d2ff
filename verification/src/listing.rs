//! Searching a listing of paths.

use vstd::prelude::*;

verus! {

/// The first position of `path` in `paths`, if it is there.
pub fn find_path(paths: &Vec<String>, path: &String) -> (found: Option<usize>)
    ensures
        found matches Some(i) ==> i < paths.len() && paths[i as int]@ == path@ && forall|j: int|
            0 <= j < i ==> paths[j]@ != path@,
        found is None ==> !paths.deep_view().contains(path@),
        found is Some <==> paths.deep_view().contains(path@),
{
    let mut i: usize = 0;
    while i < paths.len()
        invariant
            0 <= i <= paths.len(),
            forall|j: int| 0 <= j < i ==> paths[j]@ != path@,
        decreases paths.len() - i,
    {
        if paths[i] == *path {
            assert(paths.deep_view()[i as int] == path@);
            return Some(i);
        }
        i += 1;
    }
    assert forall|j: int| 0 <= j < paths.deep_view().len() implies paths.deep_view()[j]
        != path@ by {
        assert(paths.deep_view()[j] == paths[j]@);
    }
    None
}

/// The first position of `paths` that repeats an earlier path, if any does.
pub fn find_duplicate(paths: &Vec<String>) -> (found: Option<usize>)
    ensures
        found is None <==> paths.deep_view().no_duplicates(),
        found matches Some(j) ==> {
            &&& j < paths.len()
            &&& exists|i: int| 0 <= i < j && #[trigger] paths[i]@ == paths[j as int]@
            &&& forall|a: int, b: int| 0 <= a < b < j ==> paths[a]@ != paths[b]@
        },
{
    let mut j: usize = 0;
    while j < paths.len()
        invariant
            0 <= j <= paths.len(),
            forall|a: int, b: int| 0 <= a < b < j ==> paths[a]@ != paths[b]@,
        decreases paths.len() - j,
    {
        let mut i: usize = 0;
        while i < j
            invariant
                0 <= i <= j < paths.len(),
                forall|a: int, b: int| 0 <= a < b < j ==> paths[a]@ != paths[b]@,
                forall|a: int| 0 <= a < i ==> paths[a]@ != paths[j as int]@,
            decreases j - i,
        {
            if paths[i] == paths[j] {
                proof {
                    let view = paths.deep_view();
                    assert(view[i as int] == view[j as int]);
                }
                return Some(j);
            }
            i += 1;
        }
        j += 1;
    }
    proof {
        let view = paths.deep_view();
        assert forall|a: int, b: int| 0 <= a < view.len() && 0 <= b < view.len() && a != b implies view[a]
            != view[b] by {
            assert(view[a] == paths[a]@ && view[b] == paths[b]@);
        }
    }
    None
}

} // verus!
