//! What there is to tell about a comparison.
//!
//! A report names the directories in which something was added, removed or
//! changed, and below them the files whose change is suspicious. It is made
//! here as a value; putting it into words is left to the caller.

use vstd::prelude::*;
use vstd::slice::slice_to_vec;
use crate::database::Database;
use crate::diff::{
    diffs_view, summary, tree_diff, DiffSummary, DiffTree, DirectoryDiff, EntryDiff, MetricsDiff,
    Tally,
};

verus! {

/// One entry that is worth a mention, under the name it has in its directory.
#[derive(Debug, PartialEq, Eq)]
pub enum Report {
    /// A directory in which something was added, removed or changed: its
    /// counts, and what is worth a mention among its children, in order.
    Directory(Vec<u8>, DirectoryDiff, Vec<Report>),
    /// A file that was emptied, or in which zero bytes or non-ASCII bytes
    /// came or went.
    File(Vec<u8>, MetricsDiff),
}

/// [`Report`] as a mathematical value.
pub enum ReportTree {
    Directory(Seq<u8>, Tally, Seq<ReportTree>),
    File(Seq<u8>, MetricsDiff),
}

/// Reports as mathematical values.
pub open spec fn reports_view(reports: Vec<Report>) -> Seq<ReportTree>
    decreases reports,
{
    Seq::new(
        reports@.len(),
        |i: int|
            if 0 <= i < reports@.len() {
                reports@[i].view()
            } else {
                arbitrary()
            },
    )
}

impl Report {
    /// The report as a mathematical value.
    pub open spec fn view(self) -> ReportTree
        decreases self,
    {
        match self {
            Report::Directory(name, counts, children) => ReportTree::Directory(
                name@,
                counts@,
                reports_view(children),
            ),
            Report::File(name, diff) => ReportTree::File(name@, diff),
        }
    }
}

/// The view of a report that may be missing.
pub open spec fn report_view(report: Option<Report>) -> Option<ReportTree> {
    match report {
        Some(r) => Some(r@),
        None => None,
    }
}

/// What there is to tell about the comparison `diff` of two entries called
/// `name`.
///
/// A directory is mentioned where its counts show an addition, a removal or a
/// change, and only then are its children looked at. A file is mentioned
/// where its change is suspicious. A change of kind is not mentioned.
pub open spec fn report_of(diff: DiffTree, name: Seq<u8>) -> Option<ReportTree>
    decreases diff, 0nat,
{
    match diff {
        DiffTree::Directory(children, tally) => if tally.changed > 0 || tally.added > 0
            || tally.removed > 0 {
            Some(ReportTree::Directory(name, tally, reports_among(children, children.len())))
        } else {
            None
        },
        DiffTree::File(metrics) => if metrics.zeroed || metrics.changed_nul
            || metrics.changed_nonascii {
            Some(ReportTree::File(name, metrics))
        } else {
            None
        },
        DiffTree::KindChanged => None,
    }
}

/// What there is to tell about the first `count` of `children`, in order.
pub open spec fn reports_among(children: Seq<(Seq<u8>, DiffTree)>, count: nat) -> Seq<ReportTree>
    decreases children, count,
{
    if count == 0 || count > children.len() {
        Seq::empty()
    } else {
        let before = reports_among(children, (count - 1) as nat);
        match report_of(children[count - 1].1, children[count - 1].0) {
            Some(report) => before.push(report),
            None => before,
        }
    }
}

impl EntryDiff {
    /// What there is to tell about this comparison of two entries called
    /// `path`.
    pub fn show_diff(&self, path: &[u8]) -> (report: Option<Report>)
        ensures
            report_view(report) == report_of(self@, path@),
        decreases self@,
    {
        match self {
            EntryDiff::Directory(entries, diff) => {
                if diff.changed > 0 || diff.added > 0 || diff.removed > 0 {
                    let mut children: Vec<Report> = Vec::new();
                    let mut i: usize = 0;
                    proof {
                        assert(reports_view(children) =~= reports_among(diffs_view(*entries), 0));
                    }
                    while i < entries.len()
                        invariant
                            i <= entries.len(),
                            self@ == DiffTree::Directory(diffs_view(*entries), diff@),
                            reports_view(children) == reports_among(
                                diffs_view(*entries),
                                i as nat,
                            ),
                        decreases entries.len() - i,
                    {
                        proof {
                            assert(self@->Directory_0[i as int].1 == entries[i as int].1@);
                            assert(self@->Directory_0[i as int].0 == entries[i as int].0@);
                            assert(decreases_to!(self@ => self@->Directory_0[i as int].1));
                        }
                        let ghost before = reports_view(children);
                        match entries[i].1.show_diff(entries[i].0.as_slice()) {
                            Some(report) => {
                                let ghost told = report@;
                                children.push(report);
                                proof {
                                    assert(reports_view(children) =~= before.push(told));
                                }
                            },
                            None => {},
                        }
                        i += 1;
                    }
                    Some(Report::Directory(slice_to_vec(path), *diff, children))
                } else {
                    None
                }
            },
            EntryDiff::File(diff) => {
                if diff.zeroed || diff.changed_nul || diff.changed_nonascii {
                    Some(Report::File(slice_to_vec(path), *diff))
                } else {
                    None
                }
            },
            EntryDiff::KindChanged => None,
        }
    }
}

/// The name under which the root of a snapshot is reported: a single dot.
pub open spec fn root_name() -> Seq<u8> {
    seq![0x2e_u8]
}

impl Database {
    /// Compares this snapshot, the old one, with `other`, the new one. See
    /// [`crate::database::Entry::diff`].
    pub fn diff(&self, other: &Database) -> (diff: EntryDiff)
        requires
            self.wf(),
            other.wf(),
        ensures
            diff@ == tree_diff(self@, other@),
    {
        self.0.diff(&other.0)
    }

    /// Compares this snapshot, the old one, with `other`, the new one, and
    /// gives what there is to tell about it and the level it calls for.
    pub fn show_diff(&self, other: &Database) -> (shown: (Option<Report>, DiffSummary))
        requires
            self.wf(),
            other.wf(),
        ensures
            report_view(shown.0) == report_of(tree_diff(self@, other@), root_name()),
            shown.1 == summary(tree_diff(self@, other@)),
    {
        let diff = self.diff(other);
        let mut root: Vec<u8> = Vec::new();
        root.push(0x2e);
        assert(root@ =~= root_name());
        let report = diff.show_diff(root.as_slice());
        (report, diff.summarize_diff())
    }
}

} // verus!
