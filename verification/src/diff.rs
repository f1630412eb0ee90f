//! The comparison of two snapshots.
//!
//! Two directories are compared child by child. Their children are in order
//! of name, so one pass over both finds the names that only one of them has
//! and the names they share. The comparison keeps direction: the first
//! snapshot is the old one.

use vstd::prelude::*;
use crate::database::{
    child, child_index, entries_among, entry_count, has_child, lemma_child_unique,
    lemma_entries_among_grows, names, tree_wf, Entry, Tree,
};
use crate::keys::{
    ascending, compare_keys, key_lt, lemma_key_lt_irreflexive, lemma_key_lt_total,
    lemma_key_lt_transitive, KeyOrder,
};
use crate::hashing::{blake2b_256, sha512_256};
use crate::metrics::{
    has_nonascii, has_nul, metrics_of, sum_view, Features, HashSum, Metrics, MetricsView,
};

verus! {

/// How the children of a directory fared, those of its subdirectories
/// included.
#[derive(Debug, Clone, Copy, PartialEq, Eq)]
pub struct DirectoryDiff {
    pub added: u64,
    pub removed: u64,
    pub changed: u64,
    pub unchanged: u64,
}

/// How one file fared.
#[derive(Debug, Clone, Copy, PartialEq, Eq)]
pub struct MetricsDiff {
    /// The content is known to differ.
    pub changed_content: bool,
    /// The file had content and has none now.
    pub zeroed: bool,
    /// The presence of a zero byte changed.
    pub changed_nul: bool,
    /// The presence of a non-ASCII byte changed.
    pub changed_nonascii: bool,
}

/// The comparison of two entries of the same name. It has the shape of the
/// snapshots: a directory holds the comparisons of the children that both
/// snapshots have.
#[derive(Debug, PartialEq, Eq)]
pub enum EntryDiff {
    Directory(Vec<(Vec<u8>, EntryDiff)>, DirectoryDiff),
    File(MetricsDiff),
    /// A directory took the place of a file, or a file that of a directory.
    KindChanged,
}

/// [`DirectoryDiff`] as a mathematical value.
pub struct Tally {
    pub added: nat,
    pub removed: nat,
    pub changed: nat,
    pub unchanged: nat,
}

impl Tally {
    /// The tally seen from the other side: what was added counts as removed,
    /// and what was removed as added.
    pub open spec fn reversed(self) -> Tally {
        Tally {
            added: self.removed,
            removed: self.added,
            changed: self.changed,
            unchanged: self.unchanged,
        }
    }

    /// Count by count, the sum of two tallies.
    pub open spec fn plus(self, other: Tally) -> Tally {
        Tally {
            added: self.added + other.added,
            removed: self.removed + other.removed,
            changed: self.changed + other.changed,
            unchanged: self.unchanged + other.unchanged,
        }
    }

    /// All four counts together.
    pub open spec fn sum(self) -> nat {
        self.added + self.removed + self.changed + self.unchanged
    }
}

impl View for DirectoryDiff {
    type V = Tally;

    open spec fn view(&self) -> Tally {
        Tally {
            added: self.added as nat,
            removed: self.removed as nat,
            changed: self.changed as nat,
            unchanged: self.unchanged as nat,
        }
    }
}

/// [`EntryDiff`] as a mathematical value.
pub enum DiffTree {
    Directory(Seq<(Seq<u8>, DiffTree)>, Tally),
    File(MetricsDiff),
    KindChanged,
}

/// The comparisons held by a directory's comparison, as mathematical values.
pub open spec fn diffs_view(entries: Vec<(Vec<u8>, EntryDiff)>) -> Seq<(Seq<u8>, DiffTree)>
    decreases entries,
{
    Seq::new(
        entries@.len(),
        |i: int|
            if 0 <= i < entries@.len() {
                (entries@[i].0@, entries@[i].1.view())
            } else {
                arbitrary()
            },
    )
}

impl EntryDiff {
    /// The comparison as a mathematical value.
    pub open spec fn view(self) -> DiffTree
        decreases self,
    {
        match self {
            EntryDiff::Directory(entries, counts) => DiffTree::Directory(
                diffs_view(entries),
                counts@,
            ),
            EntryDiff::File(metrics) => DiffTree::File(metrics),
            EntryDiff::KindChanged => DiffTree::KindChanged,
        }
    }
}

/// How a file fared whose metrics were `old` and are `new`.
///
/// A digest speaks only where both snapshots recorded it. The signal of a
/// file emptied has a direction: it is given for content lost, not for
/// content gained.
pub open spec fn metrics_diff(old: MetricsView, new: MetricsView) -> MetricsDiff {
    MetricsDiff {
        changed_content: old.size != new.size || (old.sha2 is Some && new.sha2 is Some && old.sha2
            != new.sha2) || (old.blake2b is Some && new.blake2b is Some && old.blake2b
            != new.blake2b),
        zeroed: old.size > 0 && new.size == 0,
        changed_nul: old.nul != new.nul,
        changed_nonascii: old.nonascii != new.nonascii,
    }
}

/// The signal of a file emptied is given for content lost and never for
/// content gained, so it is given in one direction at most.
pub proof fn lemma_zeroed_is_directional(old: MetricsView, new: MetricsView)
    ensures
        metrics_diff(old, new).zeroed <==> old.size > 0 && new.size == 0,
        metrics_diff(old, new).zeroed ==> !metrics_diff(new, old).zeroed,
{
}

/// Two snapshots made with digests of which they share none cannot tell an
/// edit that keeps the size of a file and leaves zero bytes and non-ASCII
/// bytes as present or absent as they were: the file counts as unchanged.
pub proof fn lemma_disjoint_features_hide_edits(
    before: Seq<u8>,
    after: Seq<u8>,
    old: Features,
    new: Features,
)
    requires
        !(old.sha2 && new.sha2),
        !(old.blake2b && new.blake2b),
        before.len() == after.len(),
        has_nul(before) == has_nul(after),
        has_nonascii(before) == has_nonascii(after),
    ensures
        !metrics_diff(metrics_of(before, old), metrics_of(after, new)).changed_content,
        summary(DiffTree::File(metrics_diff(metrics_of(before, old), metrics_of(after, new))))
            == DiffSummary::NoChanges,
{
}

/// A digest that both snapshots hold shows an edit, provided the digest
/// tells the two contents apart.
pub proof fn lemma_shared_digest_shows_edits(
    before: Seq<u8>,
    after: Seq<u8>,
    old: Features,
    new: Features,
)
    requires
        (old.sha2 && new.sha2 && sha512_256(before) != sha512_256(after)) || (old.blake2b
            && new.blake2b && blake2b_256(before) != blake2b_256(after)),
    ensures
        metrics_diff(metrics_of(before, old), metrics_of(after, new)).changed_content,
        summary(DiffTree::File(metrics_diff(metrics_of(before, old), metrics_of(after, new))))
            != DiffSummary::NoChanges,
{
}

/// What the comparison of two entries of one name adds to the counts of the
/// directory they are in: the counts of a subdirectory, or one file or one
/// change of kind.
pub open spec fn contribution(diff: DiffTree) -> Tally {
    match diff {
        DiffTree::Directory(_, tally) => tally,
        DiffTree::File(metrics) => if metrics.changed_content {
            Tally { added: 0, removed: 0, changed: 1, unchanged: 0 }
        } else {
            Tally { added: 0, removed: 0, changed: 0, unchanged: 1 }
        },
        DiffTree::KindChanged => Tally { added: 0, removed: 0, changed: 1, unchanged: 0 },
    }
}

/// The contributions of `diffs`, added up.
pub open spec fn total(diffs: Seq<(Seq<u8>, DiffTree)>) -> Tally
    decreases diffs.len(),
{
    if diffs.len() == 0 {
        Tally { added: 0, removed: 0, changed: 0, unchanged: 0 }
    } else {
        total(diffs.drop_last()).plus(contribution(diffs.last().1))
    }
}

/// How many of the first `count` children of `ours` have no namesake among
/// `theirs`. Such a child counts once, whatever is below it.
pub open spec fn unmatched(
    ours: Seq<(Seq<u8>, Tree)>,
    theirs: Seq<(Seq<u8>, Tree)>,
    count: nat,
) -> nat
    decreases count,
{
    if count == 0 || count > ours.len() {
        0
    } else {
        unmatched(ours, theirs, (count - 1) as nat) + if has_child(theirs, ours[count - 1].0) {
            0nat
        } else {
            1nat
        }
    }
}

/// The comparison of the snapshot `old` with the snapshot `new`.
pub open spec fn tree_diff(old: Tree, new: Tree) -> DiffTree
    decreases old, 0nat,
{
    match (old, new) {
        (Tree::Directory(ours), Tree::Directory(theirs)) => {
            let shared = matched(ours, theirs, ours.len());
            DiffTree::Directory(
                shared,
                Tally {
                    added: unmatched(theirs, ours, theirs.len()),
                    removed: unmatched(ours, theirs, ours.len()),
                    changed: 0,
                    unchanged: 0,
                }.plus(total(shared)),
            )
        },
        (Tree::File(ours), Tree::File(theirs)) => DiffTree::File(metrics_diff(ours, theirs)),
        _ => DiffTree::KindChanged,
    }
}

/// The comparisons of those among the first `count` children of `old` that
/// have a namesake in `new`, each with its namesake, in order.
pub open spec fn matched(
    old: Seq<(Seq<u8>, Tree)>,
    new: Seq<(Seq<u8>, Tree)>,
    count: nat,
) -> Seq<(Seq<u8>, DiffTree)>
    decreases old, count,
{
    if count == 0 || count > old.len() {
        Seq::empty()
    } else {
        let before = matched(old, new, (count - 1) as nat);
        match child(new, old[count - 1].0) {
            Some(namesake) => before.push(
                (old[count - 1].0, tree_diff(old[count - 1].1, namesake)),
            ),
            None => before,
        }
    }
}

/// How much a comparison calls for attention. The three levels are in order:
/// suspicious changes outweigh ordinary changes, which outweigh none.
#[derive(Debug, Clone, Copy, PartialEq, Eq, Structural)]
pub enum DiffSummary {
    NoChanges,
    Changes,
    Suspicious,
}

impl DiffSummary {
    /// The place of the level in their order.
    pub open spec fn level(self) -> nat {
        match self {
            DiffSummary::NoChanges => 0,
            DiffSummary::Changes => 1,
            DiffSummary::Suspicious => 2,
        }
    }

    /// The higher of two levels.
    pub open spec fn joined(self, other: DiffSummary) -> DiffSummary {
        if self.level() >= other.level() {
            self
        } else {
            other
        }
    }

    /// The status with which a run that found this level ends: 0 for no
    /// changes, 1 for changes, 2 for suspicious changes.
    pub fn exit_code(self) -> (code: i32)
        ensures
            code == self.level(),
    {
        match self {
            DiffSummary::NoChanges => 0,
            DiffSummary::Changes => 1,
            DiffSummary::Suspicious => 2,
        }
    }

    /// The higher of two levels.
    pub fn meet(self, other: DiffSummary) -> (both: DiffSummary)
        ensures
            both == self.joined(other),
    {
        if self == DiffSummary::Suspicious || other == DiffSummary::Suspicious {
            DiffSummary::Suspicious
        } else if self == DiffSummary::Changes || other == DiffSummary::Changes {
            DiffSummary::Changes
        } else {
            DiffSummary::NoChanges
        }
    }
}

/// Joining levels is idempotent, commutative and associative, `NoChanges` is
/// its neutral element, and the result is at least as high as either level.
pub proof fn lemma_joined_is_a_semilattice(a: DiffSummary, b: DiffSummary, c: DiffSummary)
    ensures
        a.joined(a) == a,
        a.joined(b) == b.joined(a),
        a.joined(b).joined(c) == a.joined(b.joined(c)),
        a.joined(DiffSummary::NoChanges) == a,
        a.joined(b).level() >= a.level(),
        a.joined(b).level() >= b.level(),
{
}

/// The level that a comparison calls for.
///
/// A file is suspicious where it was emptied or where zero bytes or
/// non-ASCII bytes came or went; otherwise a change of content is an ordinary
/// change. A change of kind is an ordinary change. A directory starts from
/// its own counts of children added, removed and changed, and takes the
/// highest level found among its comparisons.
pub open spec fn summary(diff: DiffTree) -> DiffSummary
    decreases diff, 0nat,
{
    match diff {
        DiffTree::Directory(children, tally) => summary_among(
            children,
            children.len(),
            if tally.changed > 0 || tally.added > 0 || tally.removed > 0 {
                DiffSummary::Changes
            } else {
                DiffSummary::NoChanges
            },
        ),
        DiffTree::File(metrics) => if metrics.zeroed || metrics.changed_nul
            || metrics.changed_nonascii {
            DiffSummary::Suspicious
        } else if metrics.changed_content {
            DiffSummary::Changes
        } else {
            DiffSummary::NoChanges
        },
        DiffTree::KindChanged => DiffSummary::Changes,
    }
}

/// `initial` joined with the levels of the first `count` of `children`.
pub open spec fn summary_among(
    children: Seq<(Seq<u8>, DiffTree)>,
    count: nat,
    initial: DiffSummary,
) -> DiffSummary
    decreases children, count,
{
    if count == 0 || count > children.len() {
        initial
    } else {
        summary_among(children, (count - 1) as nat, initial).joined(summary(children[count - 1].1))
    }
}

/// The level of a directory is the highest there is among its own and those
/// of its comparisons: it is at least as high as each of them, and it is one
/// of them.
pub proof fn lemma_summary_is_highest(
    children: Seq<(Seq<u8>, DiffTree)>,
    count: nat,
    initial: DiffSummary,
)
    requires
        count <= children.len(),
    ensures
        summary_among(children, count, initial).level() >= initial.level(),
        forall|k: int|
            0 <= k < count ==> summary_among(children, count, initial).level() >= summary(
                #[trigger] children[k].1,
            ).level(),
        summary_among(children, count, initial) == initial || exists|k: int|
            0 <= k < count && summary_among(children, count, initial) == summary(
                #[trigger] children[k].1,
            ),
    decreases count,
{
    if count > 0 {
        lemma_summary_is_highest(children, (count - 1) as nat, initial);
        let before = summary_among(children, (count - 1) as nat, initial);
        let now = summary_among(children, count, initial);
        if now != initial {
            if now == summary(children[count - 1].1) {
            } else {
                let k = choose|k: int|
                    0 <= k < count - 1 && before == summary(#[trigger] children[k].1);
                assert(now == summary(children[k].1));
            }
        }
    }
}

impl EntryDiff {
    /// The level that this comparison calls for.
    pub fn summarize_diff(&self) -> (level: DiffSummary)
        ensures
            level == summary(self@),
        decreases self@,
    {
        match self {
            EntryDiff::Directory(entries, diff) => {
                let initial = if diff.changed > 0 || diff.added > 0 || diff.removed > 0 {
                    DiffSummary::Changes
                } else {
                    DiffSummary::NoChanges
                };
                let mut level = initial;
                let mut i: usize = 0;
                while i < entries.len()
                    invariant
                        i <= entries.len(),
                        self@ == DiffTree::Directory(diffs_view(*entries), diff@),
                        level == summary_among(diffs_view(*entries), i as nat, initial),
                    decreases entries.len() - i,
                {
                    proof {
                        assert(self@->Directory_0[i as int].1 == entries[i as int].1@);
                        assert(decreases_to!(self@ => self@->Directory_0[i as int].1));
                    }
                    level = level.meet(entries[i].1.summarize_diff());
                    i += 1;
                }
                level
            },
            EntryDiff::File(diff) => {
                if diff.zeroed || diff.changed_nul || diff.changed_nonascii {
                    DiffSummary::Suspicious
                } else if diff.changed_content {
                    DiffSummary::Changes
                } else {
                    DiffSummary::NoChanges
                }
            },
            EntryDiff::KindChanged => DiffSummary::Changes,
        }
    }
}

/// A comparison that found nothing: a directory in which nothing was added,
/// removed or changed, or a file that is as it was.
pub open spec fn quiet(diff: DiffTree) -> bool {
    &&& summary(diff) == DiffSummary::NoChanges
    &&& contribution(diff).added == 0
    &&& contribution(diff).removed == 0
    &&& contribution(diff).changed == 0
}

/// Comparisons that found nothing add up to nothing.
pub proof fn lemma_total_of_quiet(diffs: Seq<(Seq<u8>, DiffTree)>)
    requires
        forall|k: int| 0 <= k < diffs.len() ==> quiet(#[trigger] diffs[k].1),
    ensures
        total(diffs).added == 0,
        total(diffs).removed == 0,
        total(diffs).changed == 0,
    decreases diffs.len(),
{
    if diffs.len() > 0 {
        let shorter = diffs.drop_last();
        assert forall|k: int| 0 <= k < shorter.len() implies quiet(#[trigger] shorter[k].1) by {
            assert(shorter[k] == diffs[k]);
        }
        lemma_total_of_quiet(shorter);
        assert(quiet(diffs[diffs.len() - 1].1));
    }
}

/// Comparisons that found nothing leave the level of their directory as it is.
pub proof fn lemma_summary_of_quiet(diffs: Seq<(Seq<u8>, DiffTree)>, count: nat, initial: DiffSummary)
    requires
        count <= diffs.len(),
        forall|k: int| 0 <= k < diffs.len() ==> quiet(#[trigger] diffs[k].1),
    ensures
        summary_among(diffs, count, initial) == initial,
    decreases count,
{
    if count > 0 {
        lemma_summary_of_quiet(diffs, (count - 1) as nat, initial);
        assert(quiet(diffs[count - 1].1));
    }
}

/// Compared with itself, a directory has no unmatched child, and the
/// comparison of each child finds nothing.
proof fn lemma_self_matched(children: Seq<(Seq<u8>, Tree)>, count: nat)
    requires
        tree_wf(Tree::Directory(children)),
        count <= children.len(),
    ensures
        unmatched(children, children, count) == 0,
        forall|k: int|
            0 <= k < matched(children, children, count).len() ==> quiet(
                #[trigger] matched(children, children, count)[k].1,
            ),
    decreases children, count,
{
    if count > 0 {
        lemma_self_matched(children, (count - 1) as nat);
        lemma_child_unique(children, count - 1);
        assert(tree_wf(children[count - 1].1));
        lemma_diff_of_self(children[count - 1].1);
        let before = matched(children, children, (count - 1) as nat);
        let now = matched(children, children, count);
        assert forall|k: int| 0 <= k < now.len() implies quiet(#[trigger] now[k].1) by {
            if k < before.len() {
                assert(quiet(before[k].1));
            }
        }
    }
}

/// A snapshot compared with itself: nothing was added, removed or changed.
pub proof fn lemma_diff_of_self(tree: Tree)
    requires
        tree_wf(tree),
    ensures
        quiet(tree_diff(tree, tree)),
        summary(tree_diff(tree, tree)) == DiffSummary::NoChanges,
    decreases tree, 0nat,
{
    match tree {
        Tree::Directory(children) => {
            lemma_self_matched(children, children.len());
            let shared = matched(children, children, children.len());
            lemma_total_of_quiet(shared);
            lemma_summary_of_quiet(shared, shared.len(), DiffSummary::NoChanges);
        },
        Tree::File(_) => {},
    }
}

/// Among the first `n` children of `ours` and the first `m` of `theirs`,
/// namesakes are found together: a child that is among the first has its
/// namesake, if it has one, among the first of the other side.
spec fn cut_together(
    ours: Seq<(Seq<u8>, Tree)>,
    theirs: Seq<(Seq<u8>, Tree)>,
    n: nat,
    m: nat,
) -> bool {
    &&& forall|a: int, b: int|
        0 <= a < n && m <= b < theirs.len() ==> #[trigger] ours[a].0 != #[trigger] theirs[b].0
    &&& forall|a: int, b: int|
        n <= a < ours.len() && 0 <= b < m ==> #[trigger] ours[a].0 != #[trigger] theirs[b].0
}

/// Seen from the other side, the comparisons of the children that two
/// directories share add up to the same counts, with additions and removals
/// changing places.
proof fn lemma_matched_reversed(
    ours: Seq<(Seq<u8>, Tree)>,
    theirs: Seq<(Seq<u8>, Tree)>,
    n: nat,
    m: nat,
)
    requires
        tree_wf(Tree::Directory(ours)),
        tree_wf(Tree::Directory(theirs)),
        n <= ours.len(),
        m <= theirs.len(),
        cut_together(ours, theirs, n, m),
    ensures
        total(matched(theirs, ours, m)) == total(matched(ours, theirs, n)).reversed(),
    decreases ours, n + m,
{
    if n == 0 {
        assert forall|b: int| 0 <= b < m implies !has_child(ours, #[trigger] theirs[b].0) by {
            if has_child(ours, theirs[b].0) {
                let a = child_index(ours, theirs[b].0);
                assert(ours[a].0 == theirs[b].0);
            }
        }
        lemma_rest_unmatched(theirs, ours, 0, m);
    } else if m == 0 {
        assert forall|a: int| 0 <= a < n implies !has_child(theirs, #[trigger] ours[a].0) by {
            if has_child(theirs, ours[a].0) {
                let b = child_index(theirs, ours[a].0);
                assert(ours[a].0 == theirs[b].0);
            }
        }
        lemma_rest_unmatched(ours, theirs, 0, n);
    } else {
        let a = n - 1;
        let b = m - 1;
        if ours[a].0 == theirs[b].0 {
            lemma_child_unique(ours, a);
            lemma_child_unique(theirs, b);
            assert(cut_together(ours, theirs, a as nat, b as nat)) by {
                assert forall|i: int, j: int|
                    0 <= i < a && b <= j < theirs.len() implies #[trigger] ours[i].0
                    != #[trigger] theirs[j].0 by {
                    if j == b {
                        lemma_key_lt_irreflexive(ours[a].0);
                        assert(key_lt(names(ours)[i], names(ours)[a]));
                    }
                }
                assert forall|i: int, j: int|
                    a <= i < ours.len() && 0 <= j < b implies #[trigger] ours[i].0
                    != #[trigger] theirs[j].0 by {
                    if i == a {
                        lemma_key_lt_irreflexive(theirs[b].0);
                        assert(key_lt(names(theirs)[j], names(theirs)[b]));
                    }
                }
            }
            lemma_matched_reversed(ours, theirs, a as nat, b as nat);
            assert(tree_wf(ours[a].1));
            assert(tree_wf(theirs[b].1));
            lemma_diff_reversed(ours[a].1, theirs[b].1);
            assert(matched(ours, theirs, n).drop_last() =~= matched(ours, theirs, a as nat));
            assert(matched(theirs, ours, m).drop_last() =~= matched(theirs, ours, b as nat));
        } else if key_lt(theirs[b].0, ours[a].0) {
            assert(!has_child(theirs, ours[a].0)) by {
                if has_child(theirs, ours[a].0) {
                    let j = child_index(theirs, ours[a].0);
                    lemma_key_lt_irreflexive(ours[a].0);
                    if j < b {
                        assert(key_lt(names(theirs)[j], names(theirs)[b]));
                        lemma_key_lt_transitive(theirs[j].0, theirs[b].0, ours[a].0);
                    }
                }
            }
            assert(cut_together(ours, theirs, a as nat, m)) by {
                assert forall|i: int, j: int|
                    a <= i < ours.len() && 0 <= j < m implies #[trigger] ours[i].0
                    != #[trigger] theirs[j].0 by {
                    if i == a && ours[a].0 == theirs[j].0 {
                        assert(has_child(theirs, ours[a].0));
                    }
                }
            }
            lemma_matched_reversed(ours, theirs, a as nat, m);
        } else {
            lemma_key_lt_total(theirs[b].0, ours[a].0);
            assert(!has_child(ours, theirs[b].0)) by {
                if has_child(ours, theirs[b].0) {
                    let i = child_index(ours, theirs[b].0);
                    lemma_key_lt_irreflexive(theirs[b].0);
                    if i < a {
                        assert(key_lt(names(ours)[i], names(ours)[a]));
                        lemma_key_lt_transitive(ours[i].0, ours[a].0, theirs[b].0);
                    }
                }
            }
            assert(cut_together(ours, theirs, n, b as nat)) by {
                assert forall|i: int, j: int|
                    0 <= i < n && b <= j < theirs.len() implies #[trigger] ours[i].0
                    != #[trigger] theirs[j].0 by {
                    if j == b && ours[i].0 == theirs[b].0 {
                        assert(has_child(ours, theirs[b].0));
                    }
                }
            }
            lemma_matched_reversed(ours, theirs, n, b as nat);
        }
    }
}

/// Direction shows in the counts as a change of places: comparing `new`
/// with `old` finds added what comparing `old` with `new` finds removed,
/// and removed what that finds added; what counts as changed and as
/// unchanged is the same either way.
pub proof fn lemma_diff_reversed(old: Tree, new: Tree)
    requires
        tree_wf(old),
        tree_wf(new),
    ensures
        contribution(tree_diff(new, old)) == contribution(tree_diff(old, new)).reversed(),
    decreases old, 0nat,
{
    match (old, new) {
        (Tree::Directory(ours), Tree::Directory(theirs)) => {
            lemma_matched_reversed(ours, theirs, ours.len(), theirs.len());
        },
        _ => {},
    }
}

/// Taking one more child of `old` that has no namesake in `new` leaves the
/// comparisons as they are and counts one more unmatched child.
proof fn lemma_step_unmatched(
    ours: Seq<(Seq<u8>, Tree)>,
    theirs: Seq<(Seq<u8>, Tree)>,
    count: nat,
)
    requires
        count < ours.len(),
        !has_child(theirs, ours[count as int].0),
    ensures
        matched(ours, theirs, count + 1) == matched(ours, theirs, count),
        unmatched(ours, theirs, count + 1) == unmatched(ours, theirs, count) + 1,
{
}

/// Where none of the children of `ours` from place `from` on has a namesake
/// among `theirs`, each of them is one more unmatched child and none adds a
/// comparison.
proof fn lemma_rest_unmatched(
    ours: Seq<(Seq<u8>, Tree)>,
    theirs: Seq<(Seq<u8>, Tree)>,
    from: nat,
    to: nat,
)
    requires
        from <= to <= ours.len(),
        forall|a: int| from <= a < to ==> !has_child(theirs, #[trigger] ours[a].0),
    ensures
        matched(ours, theirs, to) == matched(ours, theirs, from),
        unmatched(ours, theirs, to) == unmatched(ours, theirs, from) + (to - from),
    decreases to,
{
    if from < to {
        lemma_rest_unmatched(ours, theirs, from, (to - 1) as nat);
        assert(!has_child(theirs, ours[to - 1].0));
        lemma_step_unmatched(ours, theirs, (to - 1) as nat);
    }
}

/// Whether two digests are both present and differ.
pub fn sums_differ(old: &Option<HashSum>, new: &Option<HashSum>) -> (differ: bool)
    ensures
        differ == (sum_view(*old) is Some && sum_view(*new) is Some && sum_view(*old) != sum_view(
            *new,
        )),
{
    match (old, new) {
        (Some(a), Some(b)) => !a.same(b),
        _ => false,
    }
}

impl Metrics {
    /// Compares what was observed of a file with what is observed of it now.
    pub fn diff(&self, new: &Metrics) -> (diff: MetricsDiff)
        ensures
            diff == metrics_diff(self@, new@),
    {
        let changed = self.size != new.size;
        let changed = changed || sums_differ(&self.sha2, &new.sha2);
        let changed = changed || sums_differ(&self.blake2b, &new.blake2b);
        MetricsDiff {
            changed_content: changed,
            zeroed: self.size > 0 && new.size == 0,
            changed_nul: self.nul != new.nul,
            changed_nonascii: self.nonascii != new.nonascii,
        }
    }
}

impl Entry {
    /// Compares this snapshot, the old one, with `other`, the new one.
    ///
    /// A child that only one of two directories has counts as removed or as
    /// added, once, whatever is below it. Children of the same name are
    /// compared in turn. A file is never compared with a directory: that is a
    /// change of kind.
    pub fn diff(&self, other: &Entry) -> (diff: EntryDiff)
        requires
            self.wf(),
            other.wf(),
        ensures
            diff@ == tree_diff(self@, other@),
            diff@ is Directory ==> contribution(diff@).sum() <= entry_count(self@) + entry_count(
                other@,
            ),
        decreases self@,
    {
        match (self, other) {
            (Entry::Directory(old), Entry::Directory(new)) => {
                let mut entries: Vec<(Vec<u8>, EntryDiff)> = Vec::new();
                let mut added: u64 = 0;
                let mut removed: u64 = 0;
                let mut changed: u64 = 0;
                let mut unchanged: u64 = 0;

                let ghost ours = old@;
                let ghost theirs = new@;
                let old_len: usize = old.len();
                let new_len: usize = new.len();
                let mut i: usize = 0;
                let mut j: usize = 0;
                proof {
                    assert(diffs_view(entries) =~= matched(ours, theirs, 0));
                    lemma_entries_among_grows(ours, 0, ours.len());
                    lemma_entries_among_grows(theirs, 0, theirs.len());
                }
                while i < old_len && j < new_len
                    invariant
                        old.wf(),
                        new.wf(),
                        ours == old@,
                        theirs == new@,
                        self@ == Tree::Directory(ours),
                        other@ == Tree::Directory(theirs),
                        tree_wf(self@),
                        tree_wf(other@),
                        entry_count(self@) + entry_count(other@) <= u64::MAX,
                        old_len == ours.len(),
                        new_len == theirs.len(),
                        i <= old_len,
                        j <= new_len,
                        forall|a: int, b: int|
                            0 <= a < i && j <= b < theirs.len() ==> key_lt(
                                #[trigger] ours[a].0,
                                #[trigger] theirs[b].0,
                            ),
                        forall|a: int, b: int|
                            i <= a < ours.len() && 0 <= b < j ==> key_lt(
                                #[trigger] theirs[b].0,
                                #[trigger] ours[a].0,
                            ),
                        diffs_view(entries) == matched(ours, theirs, i as nat),
                        removed == unmatched(ours, theirs, i as nat) + total(
                            diffs_view(entries),
                        ).removed,
                        added == unmatched(theirs, ours, j as nat) + total(
                            diffs_view(entries),
                        ).added,
                        changed == total(diffs_view(entries)).changed,
                        unchanged == total(diffs_view(entries)).unchanged,
                        added + removed + changed + unchanged <= entries_among(ours, i as nat)
                            + entries_among(theirs, j as nat),
                    decreases old_len - i + new_len - j,
                {
                    let old_key = old.name_at(i);
                    let new_key = new.name_at(j);
                    proof {
                        lemma_entries_among_grows(ours, (i + 1) as nat, ours.len());
                        lemma_entries_among_grows(theirs, (j + 1) as nat, theirs.len());
                    }
                    match compare_keys(old_key.as_slice(), new_key.as_slice()) {
                        KeyOrder::Less => {
                            proof {
                                lemma_keeps_apart(ours, theirs, i as int, j as int);
                                lemma_step_unmatched(ours, theirs, i as nat);
                            }
                            removed += 1;
                            i += 1;
                        },
                        KeyOrder::Greater => {
                            proof {
                                lemma_keeps_apart(theirs, ours, j as int, i as int);
                                lemma_step_unmatched(theirs, ours, j as nat);
                            }
                            added += 1;
                            j += 1;
                        },
                        KeyOrder::Equal => {
                            let old_value = old.entry_at(i);
                            let new_value = new.entry_at(j);
                            proof {
                                lemma_child_unique(theirs, j as int);
                                lemma_child_unique(ours, i as int);
                                lemma_meets(ours, theirs, i as int, j as int);
                            }
                            let diff = old_value.diff(new_value);
                            match diff {
                                EntryDiff::Directory(_, ref stats) => {
                                    added += stats.added;
                                    removed += stats.removed;
                                    changed += stats.changed;
                                    unchanged += stats.unchanged;
                                },
                                EntryDiff::File(ref stats) => {
                                    if stats.changed_content {
                                        changed += 1;
                                    } else {
                                        unchanged += 1;
                                    }
                                },
                                EntryDiff::KindChanged => {
                                    changed += 1;
                                },
                            }
                            let ghost before = diffs_view(entries);
                            let name = old_key.clone();
                            proof {
                                assert(name@ =~= old_key@);
                            }
                            let ghost pair = (name@, diff@);
                            entries.push((name, diff));
                            proof {
                                assert(diffs_view(entries) =~= before.push(pair));
                                assert(diffs_view(entries).drop_last() =~= before);
                            }
                            i += 1;
                            j += 1;
                        },
                    }
                }
                proof {
                    assert forall|a: int| i <= a < ours.len() implies !has_child(
                        theirs,
                        #[trigger] ours[a].0,
                    ) by {
                        if has_child(theirs, ours[a].0) {
                            let b = child_index(theirs, ours[a].0);
                            lemma_key_lt_irreflexive(ours[a].0);
                            assert(key_lt(theirs[b].0, ours[a].0));
                        }
                    }
                    assert forall|b: int| j <= b < theirs.len() implies !has_child(
                        ours,
                        #[trigger] theirs[b].0,
                    ) by {
                        if has_child(ours, theirs[b].0) {
                            let a = child_index(ours, theirs[b].0);
                            lemma_key_lt_irreflexive(theirs[b].0);
                            assert(key_lt(ours[a].0, theirs[b].0));
                        }
                    }
                    lemma_rest_unmatched(ours, theirs, i as nat, ours.len());
                    lemma_rest_unmatched(theirs, ours, j as nat, theirs.len());
                    lemma_entries_among_grows(ours, i as nat, ours.len());
                    lemma_entries_among_grows(theirs, j as nat, theirs.len());
                }
                removed += (old_len - i) as u64;
                added += (new_len - j) as u64;
                EntryDiff::Directory(entries, DirectoryDiff { added, removed, changed, unchanged })
            },
            (Entry::File(old), Entry::File(new)) => EntryDiff::File(old.diff(new)),
            (_, _) => EntryDiff::KindChanged,
        }
    }
}

/// While the names at `i` and before come before those at `j` and after, and
/// the other way round, a child at `i` whose name comes before that at `j`
/// has no namesake on the other side, and the two sides stay apart when it is
/// passed over.
proof fn lemma_keeps_apart(
    ours: Seq<(Seq<u8>, Tree)>,
    theirs: Seq<(Seq<u8>, Tree)>,
    i: int,
    j: int,
)
    requires
        ascending(names(ours)),
        ascending(names(theirs)),
        0 <= i < ours.len(),
        0 <= j < theirs.len(),
        key_lt(ours[i].0, theirs[j].0),
        forall|a: int, b: int|
            0 <= a < i && j <= b < theirs.len() ==> key_lt(
                #[trigger] ours[a].0,
                #[trigger] theirs[b].0,
            ),
        forall|a: int, b: int|
            i <= a < ours.len() && 0 <= b < j ==> key_lt(
                #[trigger] theirs[b].0,
                #[trigger] ours[a].0,
            ),
    ensures
        !has_child(theirs, ours[i].0),
        forall|a: int, b: int|
            0 <= a < i + 1 && j <= b < theirs.len() ==> key_lt(
                #[trigger] ours[a].0,
                #[trigger] theirs[b].0,
            ),
{
    assert forall|b: int| j <= b < theirs.len() implies key_lt(ours[i].0, #[trigger] theirs[b].0) by {
        if j < b {
            assert(key_lt(names(theirs)[j], names(theirs)[b]));
            lemma_key_lt_transitive(ours[i].0, theirs[j].0, theirs[b].0);
        }
    }
    if has_child(theirs, ours[i].0) {
        let b = child_index(theirs, ours[i].0);
        lemma_key_lt_irreflexive(ours[i].0);
        if b < j {
            assert(key_lt(theirs[b].0, ours[i].0));
        } else {
            assert(key_lt(ours[i].0, theirs[b].0));
        }
    }
}

/// Where the children at `i` and at `j` have the same name, the two sides
/// stay apart when both are passed over, and the comparison of the two is
/// the next one of the directory.
proof fn lemma_meets(ours: Seq<(Seq<u8>, Tree)>, theirs: Seq<(Seq<u8>, Tree)>, i: int, j: int)
    requires
        ascending(names(ours)),
        ascending(names(theirs)),
        0 <= i < ours.len(),
        0 <= j < theirs.len(),
        ours[i].0 == theirs[j].0,
        forall|a: int, b: int|
            0 <= a < i && j <= b < theirs.len() ==> key_lt(
                #[trigger] ours[a].0,
                #[trigger] theirs[b].0,
            ),
        forall|a: int, b: int|
            i <= a < ours.len() && 0 <= b < j ==> key_lt(
                #[trigger] theirs[b].0,
                #[trigger] ours[a].0,
            ),
    ensures
        forall|a: int, b: int|
            0 <= a < i + 1 && j + 1 <= b < theirs.len() ==> key_lt(
                #[trigger] ours[a].0,
                #[trigger] theirs[b].0,
            ),
        forall|a: int, b: int|
            i + 1 <= a < ours.len() && 0 <= b < j + 1 ==> key_lt(
                #[trigger] theirs[b].0,
                #[trigger] ours[a].0,
            ),
        matched(ours, theirs, (i + 1) as nat) == matched(ours, theirs, i as nat).push(
            (ours[i].0, tree_diff(ours[i].1, theirs[j].1)),
        ),
        unmatched(ours, theirs, (i + 1) as nat) == unmatched(ours, theirs, i as nat),
        unmatched(theirs, ours, (j + 1) as nat) == unmatched(theirs, ours, j as nat),
{
    assert forall|a: int, b: int| 0 <= a < i + 1 && j + 1 <= b < theirs.len() implies key_lt(
        #[trigger] ours[a].0,
        #[trigger] theirs[b].0,
    ) by {
        if a == i {
            assert(key_lt(names(theirs)[j], names(theirs)[b]));
        }
    }
    assert forall|a: int, b: int| i + 1 <= a < ours.len() && 0 <= b < j + 1 implies key_lt(
        #[trigger] theirs[b].0,
        #[trigger] ours[a].0,
    ) by {
        if b == j {
            assert(key_lt(names(ours)[i], names(ours)[a]));
        }
    }
    lemma_child_unique(theirs, j);
    lemma_child_unique(ours, i);
}

} // verus!
