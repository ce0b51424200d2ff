//! The mathematical model of a rename mapping: a sequence of
//! `(source, destination)` pairs of paths.

use crate::text::Path;
use vstd::prelude::*;

verus! {

/// A sequence of renames, each from its first path to its second.
pub type Renames = Seq<(Path, Path)>;

/// The paths that are renamed away.
pub open spec fn sources(renames: Renames) -> Seq<Path> {
    Seq::new(renames.len(), |i: int| renames[i].0)
}

/// The paths that are renamed to.
pub open spec fn destinations(renames: Renames) -> Seq<Path> {
    Seq::new(renames.len(), |i: int| renames[i].1)
}

/// A well-formed mapping: no path is renamed twice, no path is the
/// destination of two renames, and no rename leaves its path where it is.
pub open spec fn is_rename_mapping(renames: Renames) -> bool {
    &&& sources(renames).no_duplicates()
    &&& destinations(renames).no_duplicates()
    &&& forall|i: int| 0 <= i < renames.len() ==> (#[trigger] renames[i]).0 != renames[i].1
}

/// The pairs `(original[i], edited[i])`, `i < n`, whose two paths differ, in
/// the order of the listing.
pub open spec fn changed_pairs_upto(original: Seq<Path>, edited: Seq<Path>, n: nat) -> Renames
    decreases n,
{
    if n == 0 {
        Seq::empty()
    } else {
        let rest = changed_pairs_upto(original, edited, (n - 1) as nat);
        if original[n - 1] != edited[n - 1] {
            rest.push((original[n - 1], edited[n - 1]))
        } else {
            rest
        }
    }
}

/// The renames that an edit of a listing asks for: the listing zipped with
/// its edited form, without the pairs that change nothing.
pub open spec fn changed_pairs(original: Seq<Path>, edited: Seq<Path>) -> Renames {
    changed_pairs_upto(original, edited, original.len())
}

/// Each changed pair stems from one position of the listing, and later pairs
/// from later positions.
pub proof fn lemma_changed_pairs_origin(original: Seq<Path>, edited: Seq<Path>, n: nat)
    requires
        n <= original.len(),
        n <= edited.len(),
    ensures
        changed_pairs_upto(original, edited, n).len() <= n,
        forall|k: int|
            #![trigger changed_pairs_upto(original, edited, n)[k]]
            0 <= k < changed_pairs_upto(original, edited, n).len() ==> exists|i: int|
                #![trigger original[i]]
                k <= i < n && original[i] != edited[i] && changed_pairs_upto(
                    original,
                    edited,
                    n,
                )[k] == (original[i], edited[i]),
        forall|k: int, l: int|
            #![trigger changed_pairs_upto(original, edited, n)[k], changed_pairs_upto(original, edited, n)[l]]
            0 <= k < l < changed_pairs_upto(original, edited, n).len() ==> exists|i: int, j: int|
                #![trigger original[i], original[j]]
                0 <= i < j < n && changed_pairs_upto(original, edited, n)[k] == (
                    original[i],
                    edited[i],
                ) && changed_pairs_upto(original, edited, n)[l] == (original[j], edited[j]),
    decreases n,
{
    if n > 0 {
        let rest = changed_pairs_upto(original, edited, (n - 1) as nat);
        let all = changed_pairs_upto(original, edited, n);
        lemma_changed_pairs_origin(original, edited, (n - 1) as nat);
        assert forall|k: int| #![trigger all[k]] 0 <= k < all.len() implies exists|i: int|
            #![trigger original[i]]
            k <= i < n && original[i] != edited[i] && all[k] == (original[i], edited[i]) by {
            if k < rest.len() {
                let i = choose|i: int|
                    #![trigger original[i]]
                    k <= i < n - 1 && original[i] != edited[i] && rest[k] == (
                        original[i],
                        edited[i],
                    );
                assert(all[k] == (original[i], edited[i]));
            } else {
                assert(all[k] == (original[n - 1], edited[n - 1]));
            }
        }
        assert forall|k: int, l: int|
            #![trigger all[k], all[l]]
            0 <= k < l < all.len() implies exists|i: int, j: int|
            #![trigger original[i], original[j]]
            0 <= i < j < n && all[k] == (original[i], edited[i]) && all[l] == (
                original[j],
                edited[j],
            ) by {
            if l < rest.len() {
                let (i, j) = choose|i: int, j: int|
                    #![trigger original[i], original[j]]
                    0 <= i < j < n - 1 && rest[k] == (original[i], edited[i]) && rest[l] == (
                        original[j],
                        edited[j],
                    );
                assert(all[k] == (original[i], edited[i]) && all[l] == (original[j], edited[j]));
            } else {
                let i = choose|i: int|
                    #![trigger original[i]]
                    k <= i < n - 1 && original[i] != edited[i] && rest[k] == (
                        original[i],
                        edited[i],
                    );
                assert(all[k] == (original[i], edited[i]));
                assert(all[l] == (original[n - 1], edited[n - 1]));
            }
        }
    }
}

/// An edit that keeps the number of paths and repeats none of them asks for
/// a well-formed mapping, provided the listing itself repeats no path.
pub proof fn lemma_changed_pairs_well_formed(original: Seq<Path>, edited: Seq<Path>)
    requires
        original.len() == edited.len(),
        original.no_duplicates(),
        edited.no_duplicates(),
    ensures
        is_rename_mapping(changed_pairs(original, edited)),
{
    let pairs = changed_pairs(original, edited);
    lemma_changed_pairs_origin(original, edited, original.len());
    assert forall|k: int, l: int|
        #![trigger pairs[k], pairs[l]]
        0 <= k < l < pairs.len() implies pairs[k].0 != pairs[l].0 && pairs[k].1 != pairs[l].1 by {
        let (i, j) = choose|i: int, j: int|
            #![trigger original[i], original[j]]
            0 <= i < j < original.len() && pairs[k] == (original[i], edited[i]) && pairs[l] == (
                original[j],
                edited[j],
            );
    }
    assert forall|k: int| 0 <= k < pairs.len() implies (#[trigger] pairs[k]).0 != pairs[k].1 by {
        let i = choose|i: int|
            #![trigger original[i]]
            k <= i < original.len() && original[i] != edited[i] && pairs[k] == (
                original[i],
                edited[i],
            );
    }
    assert(sources(pairs).no_duplicates());
    assert(destinations(pairs).no_duplicates());
}

/// Validation is idempotent: the renames that an edit asks for, taken as a
/// listing and its edit, ask for the same renames again.
pub proof fn lemma_validation_idempotent(original: Seq<Path>, edited: Seq<Path>)
    requires
        original.len() == edited.len(),
        original.no_duplicates(),
        edited.no_duplicates(),
    ensures
        sources(changed_pairs(original, edited)).len() == destinations(
            changed_pairs(original, edited),
        ).len(),
        destinations(changed_pairs(original, edited)).no_duplicates(),
        changed_pairs(
            sources(changed_pairs(original, edited)),
            destinations(changed_pairs(original, edited)),
        ) == changed_pairs(original, edited),
{
    let pairs = changed_pairs(original, edited);
    lemma_changed_pairs_well_formed(original, edited);
    lemma_all_pairs_changed(pairs, pairs.len());
    assert(pairs.take(pairs.len() as int) =~= pairs);
}

proof fn lemma_all_pairs_changed(pairs: Renames, n: nat)
    requires
        n <= pairs.len(),
        forall|i: int| 0 <= i < pairs.len() ==> (#[trigger] pairs[i]).0 != pairs[i].1,
    ensures
        changed_pairs_upto(sources(pairs), destinations(pairs), n) == pairs.take(n as int),
    decreases n,
{
    if n > 0 {
        lemma_all_pairs_changed(pairs, (n - 1) as nat);
        assert(pairs[n - 1].0 != pairs[n - 1].1);
        assert(pairs.take(n as int) =~= pairs.take(n - 1).push(pairs[n - 1]));
    } else {
        assert(pairs.take(0) =~= Seq::<(Path, Path)>::empty());
    }
}

} // verus!
