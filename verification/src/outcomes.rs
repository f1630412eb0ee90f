//! What a comparison comes to, told from the two snapshots.
//!
//! The level of a comparison is the highest level found anywhere in it. So a
//! file that calls for a level, however deep it lies, calls for at least that
//! level of the whole; and where no file is suspicious, the whole is not.

use vstd::prelude::*;
use crate::database::{
    child, child_index, empty_directory, has_child, insertable, lemma_child_unique,
    lemma_put_ascending, names, put, tree_insert, tree_lookup, tree_wf, Tree,
};
use crate::insertion::lemma_put_child;
use crate::diff::{
    lemma_summary_is_highest, lemma_summary_of_quiet, lemma_total_of_quiet, matched,
    metrics_diff, quiet, summary, summary_among, total, tree_diff, unmatched, DiffSummary,
    DiffTree, MetricsDiff, Tally,
};
use crate::metrics::MetricsView;

verus! {

/// The comparison of the child of `ours` at place `i` with its namesake
/// among `theirs`, under their name.
pub open spec fn shared_diff(
    ours: Seq<(Seq<u8>, Tree)>,
    theirs: Seq<(Seq<u8>, Tree)>,
    i: int,
) -> (Seq<u8>, DiffTree) {
    (ours[i].0, tree_diff(ours[i].1, child(theirs, ours[i].0)->0))
}

/// Every comparison that a directory's comparison holds is that of a child
/// with its namesake.
pub proof fn lemma_matched_elements(
    ours: Seq<(Seq<u8>, Tree)>,
    theirs: Seq<(Seq<u8>, Tree)>,
    count: nat,
    k: int,
)
    requires
        count <= ours.len(),
        0 <= k < matched(ours, theirs, count).len(),
    ensures
        exists|i: int|
            0 <= i < count && has_child(theirs, ours[i].0) && matched(ours, theirs, count)[k]
                == #[trigger] shared_diff(ours, theirs, i),
    decreases count,
{
    if count > 0 {
        let before = matched(ours, theirs, (count - 1) as nat);
        if k < before.len() {
            lemma_matched_elements(ours, theirs, (count - 1) as nat, k);
            let i = choose|i: int|
                0 <= i < count - 1 && has_child(theirs, ours[i].0) && before[k]
                    == #[trigger] shared_diff(ours, theirs, i);
            assert(matched(ours, theirs, count)[k] == shared_diff(ours, theirs, i));
        } else {
            assert(matched(ours, theirs, count)[k] == shared_diff(ours, theirs, count - 1));
        }
    }
}

/// Every child that has a namesake is compared with it: the comparison is
/// among those that the directory's comparison holds.
pub proof fn lemma_matched_holds(
    ours: Seq<(Seq<u8>, Tree)>,
    theirs: Seq<(Seq<u8>, Tree)>,
    count: nat,
    i: int,
)
    requires
        0 <= i < count <= ours.len(),
        has_child(theirs, ours[i].0),
    ensures
        exists|k: int|
            0 <= k < matched(ours, theirs, count).len() && #[trigger] matched(
                ours,
                theirs,
                count,
            )[k] == shared_diff(ours, theirs, i),
    decreases count,
{
    let now = matched(ours, theirs, count);
    if i == count - 1 {
        assert(now[now.len() - 1] == shared_diff(ours, theirs, i));
    } else {
        lemma_matched_holds(ours, theirs, (count - 1) as nat, i);
        let before = matched(ours, theirs, (count - 1) as nat);
        let k = choose|k: int|
            0 <= k < before.len() && #[trigger] before[k] == shared_diff(ours, theirs, i);
        assert(now[k] == shared_diff(ours, theirs, i));
    }
}

/// A child without namesake is counted.
pub proof fn lemma_unmatched_some(
    ours: Seq<(Seq<u8>, Tree)>,
    theirs: Seq<(Seq<u8>, Tree)>,
    count: nat,
    i: int,
)
    requires
        0 <= i < count <= ours.len(),
        !has_child(theirs, ours[i].0),
    ensures
        unmatched(ours, theirs, count) >= 1,
    decreases count,
{
    if i < count - 1 {
        lemma_unmatched_some(ours, theirs, (count - 1) as nat, i);
    }
}

/// Where every child has a namesake, none is counted.
pub proof fn lemma_unmatched_none(
    ours: Seq<(Seq<u8>, Tree)>,
    theirs: Seq<(Seq<u8>, Tree)>,
    count: nat,
)
    requires
        count <= ours.len(),
        forall|i: int| 0 <= i < count ==> has_child(theirs, #[trigger] ours[i].0),
    ensures
        unmatched(ours, theirs, count) == 0,
    decreases count,
{
    if count > 0 {
        lemma_unmatched_none(ours, theirs, (count - 1) as nat);
        assert(has_child(theirs, ours[count - 1].0));
    }
}

/// What stands at the same path on both sides shows in the whole: the level
/// of the whole comparison is at least the level of the comparison of the
/// two. A path leads through directories only, so it can be followed on both
/// sides only where both have directories all the way.
pub proof fn lemma_deeper_level_shows(old: Tree, new: Tree, path: Seq<Seq<u8>>)
    requires
        tree_wf(old),
        tree_wf(new),
        tree_lookup(old, path) is Some,
        tree_lookup(new, path) is Some,
    ensures
        summary(tree_diff(old, new)).level() >= summary(
            tree_diff(tree_lookup(old, path)->0, tree_lookup(new, path)->0),
        ).level(),
    decreases path.len(),
{
    if path.len() > 0 {
        let ours = old->Directory_0;
        let theirs = new->Directory_0;
        let i = child_index(ours, path[0]);
        let j = child_index(theirs, path[0]);
        assert(tree_wf(ours[i].1));
        assert(tree_wf(theirs[j].1));
        lemma_deeper_level_shows(ours[i].1, theirs[j].1, path.skip(1));
        lemma_matched_holds(ours, theirs, ours.len(), i);
        let shared = matched(ours, theirs, ours.len());
        let k = choose|k: int|
            0 <= k < shared.len() && #[trigger] shared[k] == shared_diff(ours, theirs, i);
        let tally = tree_diff(old, new)->Directory_1;
        let initial = if tally.changed > 0 || tally.added > 0 || tally.removed > 0 {
            DiffSummary::Changes
        } else {
            DiffSummary::NoChanges
        };
        lemma_summary_is_highest(shared, shared.len(), initial);
        assert(summary(tree_diff(old, new)).level() >= summary(shared[k].1).level());
    }
}

/// A file that was emptied, or in which zero bytes or non-ASCII bytes came
/// or went, makes the whole comparison suspicious, wherever the file lies
/// and whatever else there is.
pub proof fn lemma_suspicious_file_shows(
    old: Tree,
    new: Tree,
    path: Seq<Seq<u8>>,
    before: MetricsView,
    after: MetricsView,
)
    requires
        tree_wf(old),
        tree_wf(new),
        tree_lookup(old, path) == Some(Tree::File(before)),
        tree_lookup(new, path) == Some(Tree::File(after)),
        (before.size > 0 && after.size == 0) || before.nul != after.nul || before.nonascii
            != after.nonascii,
    ensures
        summary(tree_diff(old, new)) == DiffSummary::Suspicious,
{
    lemma_deeper_level_shows(old, new, path);
}

/// No file that both snapshots have, in directories that both have, is
/// suspicious: none was emptied, and in none did zero bytes or non-ASCII
/// bytes come or go.
pub open spec fn calm(old: Tree, new: Tree) -> bool
    decreases old,
{
    match (old, new) {
        (Tree::Directory(ours), Tree::Directory(theirs)) => forall|i: int|
            0 <= i < ours.len() && has_child(theirs, ours[i].0) ==> calm(
                #[trigger] ours[i].1,
                child(theirs, ours[i].0)->0,
            ),
        (Tree::File(ours), Tree::File(theirs)) => summary(
            DiffTree::File(metrics_diff(ours, theirs)),
        ) != DiffSummary::Suspicious,
        _ => true,
    }
}

/// Where no file is suspicious, the whole comparison is not.
pub proof fn lemma_calm_is_not_suspicious(old: Tree, new: Tree)
    requires
        calm(old, new),
    ensures
        summary(tree_diff(old, new)) != DiffSummary::Suspicious,
    decreases old,
{
    match (old, new) {
        (Tree::Directory(ours), Tree::Directory(theirs)) => {
            let shared = matched(ours, theirs, ours.len());
            let tally = tree_diff(old, new)->Directory_1;
            let initial = if tally.changed > 0 || tally.added > 0 || tally.removed > 0 {
                DiffSummary::Changes
            } else {
                DiffSummary::NoChanges
            };
            lemma_summary_is_highest(shared, shared.len(), initial);
            if summary_among(shared, shared.len(), initial) != initial {
                let k = choose|k: int|
                    0 <= k < shared.len() && summary_among(shared, shared.len(), initial)
                        == summary(#[trigger] shared[k].1);
                lemma_matched_elements(ours, theirs, ours.len(), k);
                let i = choose|i: int|
                    0 <= i < ours.len() && has_child(theirs, ours[i].0) && shared[k]
                        == #[trigger] shared_diff(ours, theirs, i);
                assert(calm(ours[i].1, child(theirs, ours[i].0)->0));
                lemma_calm_is_not_suspicious(ours[i].1, child(theirs, ours[i].0)->0);
            }
        },
        _ => {},
    }
}

/// Where no file is suspicious and the content of some file is known to
/// have changed, as a digest that both snapshots hold tells, the whole
/// comparison shows changes, and no more than changes.
pub proof fn lemma_changed_file_shows(
    old: Tree,
    new: Tree,
    path: Seq<Seq<u8>>,
    before: MetricsView,
    after: MetricsView,
)
    requires
        tree_wf(old),
        tree_wf(new),
        calm(old, new),
        tree_lookup(old, path) == Some(Tree::File(before)),
        tree_lookup(new, path) == Some(Tree::File(after)),
        metrics_diff(before, after).changed_content,
    ensures
        summary(tree_diff(old, new)) == DiffSummary::Changes,
{
    lemma_deeper_level_shows(old, new, path);
    lemma_calm_is_not_suspicious(old, new);
    assert(summary(tree_diff(Tree::File(before), Tree::File(after))).level() >= 1);
}

/// Two snapshots are alike: they have the same directories and the same
/// files under the same names, and no file differs in what both snapshots
/// recorded of it. The digests that only one of them recorded do not count.
pub open spec fn alike(old: Tree, new: Tree) -> bool
    decreases old,
{
    match (old, new) {
        (Tree::Directory(ours), Tree::Directory(theirs)) => {
            &&& ours.len() == theirs.len()
            &&& forall|i: int|
                0 <= i < ours.len() ==> (#[trigger] ours[i]).0 == theirs[i].0 && alike(
                    ours[i].1,
                    theirs[i].1,
                )
        },
        (Tree::File(ours), Tree::File(theirs)) => metrics_diff(ours, theirs) == (MetricsDiff {
            changed_content: false,
            zeroed: false,
            changed_nul: false,
            changed_nonascii: false,
        }),
        _ => false,
    }
}

/// A snapshot is like itself.
pub proof fn lemma_alike_itself(tree: Tree)
    ensures
        alike(tree, tree),
    decreases tree,
{
    match tree {
        Tree::Directory(children) => {
            assert forall|i: int| 0 <= i < children.len() implies (#[trigger] children[i]).0
                == children[i].0 && alike(children[i].1, children[i].1) by {
                lemma_alike_itself(children[i].1);
            }
        },
        Tree::File(_) => {},
    }
}

/// Snapshots that are alike compare without changes: nothing is added,
/// removed or changed, whichever digests each of them was made with.
pub proof fn lemma_alike_is_quiet(old: Tree, new: Tree)
    requires
        tree_wf(old),
        tree_wf(new),
        alike(old, new),
    ensures
        quiet(tree_diff(old, new)),
        summary(tree_diff(old, new)) == DiffSummary::NoChanges,
    decreases old,
{
    match (old, new) {
        (Tree::Directory(ours), Tree::Directory(theirs)) => {
            assert forall|i: int| 0 <= i < ours.len() implies has_child(
                theirs,
                #[trigger] ours[i].0,
            ) by {
                assert(theirs[i].0 == ours[i].0);
            }
            assert forall|i: int| 0 <= i < theirs.len() implies has_child(
                ours,
                #[trigger] theirs[i].0,
            ) by {
                assert(ours[i].0 == theirs[i].0);
            }
            lemma_unmatched_none(ours, theirs, ours.len());
            lemma_unmatched_none(theirs, ours, theirs.len());
            let shared = matched(ours, theirs, ours.len());
            assert forall|k: int| 0 <= k < shared.len() implies quiet(#[trigger] shared[k].1) by {
                lemma_matched_elements(ours, theirs, ours.len(), k);
                let i = choose|i: int|
                    0 <= i < ours.len() && has_child(theirs, ours[i].0) && shared[k]
                        == #[trigger] shared_diff(ours, theirs, i);
                assert(theirs[i].0 == ours[i].0);
                lemma_child_unique(theirs, i);
                assert(tree_wf(ours[i].1));
                assert(tree_wf(theirs[i].1));
                lemma_alike_is_quiet(ours[i].1, theirs[i].1);
            }
            lemma_total_of_quiet(shared);
            lemma_summary_of_quiet(shared, shared.len(), DiffSummary::NoChanges);
        },
        _ => {},
    }
}

/// Compared with itself, a snapshot has no suspicious file.
pub proof fn lemma_calm_itself(tree: Tree)
    requires
        tree_wf(tree),
    ensures
        calm(tree, tree),
    decreases tree,
{
    match tree {
        Tree::Directory(children) => {
            assert forall|i: int|
                0 <= i < children.len() && has_child(children, children[i].0) implies calm(
                #[trigger] children[i].1,
                child(children, children[i].0)->0,
            ) by {
                lemma_child_unique(children, i);
                assert(tree_wf(children[i].1));
                lemma_calm_itself(children[i].1);
            }
        },
        Tree::File(_) => {},
    }
}

/// Placing an entry at a free path makes no file suspicious, whichever of
/// the two snapshots is taken for the old one.
pub proof fn lemma_insert_is_calm(tree: Tree, path: Seq<Seq<u8>>, entry: Tree)
    requires
        tree_wf(tree),
        insertable(tree, path),
    ensures
        calm(tree, tree_insert(tree, path, entry)),
        calm(tree_insert(tree, path, entry), tree),
    decreases path.len(),
{
    let children = tree->Directory_0;
    let name = path[0];
    let below = match child(children, name) {
        Some(below) => below,
        None => empty_directory(),
    };
    let placed = if path.len() == 1 {
        entry
    } else {
        tree_insert(below, path.skip(1), entry)
    };
    let after = put(children, name, placed);
    lemma_put_ascending(children, name, placed);
    if has_child(children, name) {
        assert(tree_wf(children[child_index(children, name)].1));
        lemma_insert_is_calm(below, path.skip(1), entry);
    }
    assert forall|i: int| 0 <= i < children.len() && has_child(after, children[i].0) implies calm(
        #[trigger] children[i].1,
        child(after, children[i].0)->0,
    ) by {
        lemma_put_child(children, name, placed, children[i].0);
        lemma_child_unique(children, i);
        if children[i].0 != name {
            assert(tree_wf(children[i].1));
            lemma_calm_itself(children[i].1);
        }
    }
    assert forall|j: int| 0 <= j < after.len() && has_child(children, after[j].0) implies calm(
        #[trigger] after[j].1,
        child(children, after[j].0)->0,
    ) by {
        lemma_put_child(children, name, placed, after[j].0);
        lemma_child_unique(after, j);
        if after[j].0 != name {
            let i = child_index(children, after[j].0);
            assert(tree_wf(children[i].1));
            lemma_calm_itself(children[i].1);
        }
    }
}

/// An entry that was placed at a free path shows in the comparison of the
/// snapshot before with the snapshot after, and in that of the snapshot
/// after with the snapshot before: neither is without changes.
pub proof fn lemma_insert_is_seen(tree: Tree, path: Seq<Seq<u8>>, entry: Tree)
    requires
        tree_wf(tree),
        insertable(tree, path),
    ensures
        summary(tree_diff(tree, tree_insert(tree, path, entry))).level() >= 1,
        summary(tree_diff(tree_insert(tree, path, entry), tree)).level() >= 1,
    decreases path.len(),
{
    let children = tree->Directory_0;
    let name = path[0];
    let below = match child(children, name) {
        Some(below) => below,
        None => empty_directory(),
    };
    let placed = if path.len() == 1 {
        entry
    } else {
        tree_insert(below, path.skip(1), entry)
    };
    let after = put(children, name, placed);
    lemma_put_ascending(children, name, placed);
    lemma_put_child(children, name, placed, name);
    let j = child_index(after, name);
    lemma_child_unique(after, j);
    let forth = tree_diff(tree, Tree::Directory(after));
    let back = tree_diff(Tree::Directory(after), tree);
    let forth_initial = if forth->Directory_1.changed > 0 || forth->Directory_1.added > 0
        || forth->Directory_1.removed > 0 {
        DiffSummary::Changes
    } else {
        DiffSummary::NoChanges
    };
    let back_initial = if back->Directory_1.changed > 0 || back->Directory_1.added > 0
        || back->Directory_1.removed > 0 {
        DiffSummary::Changes
    } else {
        DiffSummary::NoChanges
    };
    let forth_shared = matched(children, after, children.len());
    let back_shared = matched(after, children, after.len());
    lemma_summary_is_highest(forth_shared, forth_shared.len(), forth_initial);
    lemma_summary_is_highest(back_shared, back_shared.len(), back_initial);
    if has_child(children, name) {
        let i = child_index(children, name);
        lemma_child_unique(children, i);
        assert(tree_wf(children[i].1));
        lemma_insert_is_seen(below, path.skip(1), entry);
        lemma_matched_holds(children, after, children.len(), i);
        let k = choose|k: int|
            0 <= k < forth_shared.len() && #[trigger] forth_shared[k] == shared_diff(
                children,
                after,
                i,
            );
        assert(summary(forth).level() >= summary(forth_shared[k].1).level());
        lemma_matched_holds(after, children, after.len(), j);
        let l = choose|l: int|
            0 <= l < back_shared.len() && #[trigger] back_shared[l] == shared_diff(
                after,
                children,
                j,
            );
        assert(summary(back).level() >= summary(back_shared[l].1).level());
    } else {
        lemma_unmatched_some(after, children, after.len(), j);
    }
}

/// A snapshot and the snapshot with one more entry, placed at a free path,
/// compare as changed, and as no more than changed, whichever of the two is
/// taken for the old one: an entry added or removed anywhere is an ordinary
/// change.
pub proof fn lemma_insert_shows_as_changes(tree: Tree, path: Seq<Seq<u8>>, entry: Tree)
    requires
        tree_wf(tree),
        insertable(tree, path),
    ensures
        summary(tree_diff(tree, tree_insert(tree, path, entry))) == DiffSummary::Changes,
        summary(tree_diff(tree_insert(tree, path, entry), tree)) == DiffSummary::Changes,
{
    lemma_insert_is_seen(tree, path, entry);
    lemma_insert_is_calm(tree, path, entry);
    lemma_calm_is_not_suspicious(tree, tree_insert(tree, path, entry));
    lemma_calm_is_not_suspicious(tree_insert(tree, path, entry), tree);
}

/// The number of files in `tree`, a file counting as one.
pub open spec fn file_count(tree: Tree) -> nat
    decreases tree, 0nat,
{
    match tree {
        Tree::Directory(children) => files_among(children, children.len()),
        Tree::File(_) => 1,
    }
}

/// The number of files in the first `count` of `children`.
pub open spec fn files_among(children: Seq<(Seq<u8>, Tree)>, count: nat) -> nat
    decreases children, count,
{
    if count == 0 || count > children.len() {
        0
    } else {
        files_among(children, (count - 1) as nat) + file_count(children[count - 1].1)
    }
}

/// The comparison that finds nothing, in the shape of `tree`: every
/// directory with the names it has, nothing added, removed or changed and
/// every file in it unchanged; every file with no flag raised.
pub open spec fn unchanged_image(tree: Tree) -> DiffTree
    decreases tree, 0nat,
{
    match tree {
        Tree::Directory(children) => DiffTree::Directory(
            images_among(children, children.len()),
            Tally { added: 0, removed: 0, changed: 0, unchanged: file_count(tree) },
        ),
        Tree::File(_) => DiffTree::File(
            MetricsDiff {
                changed_content: false,
                zeroed: false,
                changed_nul: false,
                changed_nonascii: false,
            },
        ),
    }
}

/// The images of the first `count` of `children`, each under its name.
pub open spec fn images_among(children: Seq<(Seq<u8>, Tree)>, count: nat) -> Seq<
    (Seq<u8>, DiffTree),
>
    decreases children, count,
{
    if count == 0 || count > children.len() {
        Seq::empty()
    } else {
        images_among(children, (count - 1) as nat).push(
            (children[count - 1].0, unchanged_image(children[count - 1].1)),
        )
    }
}

/// Compared with itself, a directory gives the images of its children, and
/// they add up to its files, all unchanged.
proof fn lemma_self_matched_shape(children: Seq<(Seq<u8>, Tree)>, count: nat)
    requires
        tree_wf(Tree::Directory(children)),
        count <= children.len(),
    ensures
        unmatched(children, children, count) == 0,
        matched(children, children, count) == images_among(children, count),
        total(matched(children, children, count)) == (Tally {
            added: 0,
            removed: 0,
            changed: 0,
            unchanged: files_among(children, count),
        }),
    decreases children, count,
{
    if count > 0 {
        lemma_self_matched_shape(children, (count - 1) as nat);
        lemma_child_unique(children, count - 1);
        assert(tree_wf(children[count - 1].1));
        lemma_self_diff_shape(children[count - 1].1);
        assert(matched(children, children, count).drop_last() =~= matched(
            children,
            children,
            (count - 1) as nat,
        ));
    }
}

/// A snapshot compared with itself gives the comparison that finds nothing,
/// in the shape of the snapshot: the same names at every level, no change of
/// kind, no flag raised at any file, and at every directory nothing added,
/// removed or changed and as many unchanged as there are files in it.
pub proof fn lemma_self_diff_shape(tree: Tree)
    requires
        tree_wf(tree),
    ensures
        tree_diff(tree, tree) == unchanged_image(tree),
    decreases tree, 0nat,
{
    match tree {
        Tree::Directory(children) => {
            lemma_self_matched_shape(children, children.len());
        },
        Tree::File(_) => {},
    }
}

} // verus!
