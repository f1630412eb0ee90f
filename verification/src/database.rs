//! The snapshot of a directory tree.
//!
//! A snapshot is a tree. Its inner nodes are directories, each an ordered
//! mapping from one path component to the entry of that name; its leaves are
//! files, each with the metrics that were observed of it. The order of the
//! names makes the tree independent of the order in which it was filled.

use vstd::prelude::*;
pub use crate::codec::DatabaseChecksum;
pub use crate::diff::{DiffSummary, DirectoryDiff, EntryDiff, MetricsDiff};
pub use crate::metrics::{Features, HashSum, Metrics};
use crate::keys::{
    ascending, compare_keys, key_lt, lemma_key_lt_asymmetric, lemma_key_lt_irreflexive,
    lemma_key_lt_total, lemma_key_lt_transitive, KeyOrder,
};
use crate::error::Error;
use crate::metrics::MetricsView;

verus! {

/// A snapshot as a mathematical value: a directory is the sequence of its
/// named children, a file is what was observed of it.
pub enum Tree {
    Directory(Seq<(Seq<u8>, Tree)>),
    File(MetricsView),
}

/// The names of `children`, in order.
pub open spec fn names(children: Seq<(Seq<u8>, Tree)>) -> Seq<Seq<u8>> {
    children.map_values(|c: (Seq<u8>, Tree)| c.0)
}

/// Some child is called `name`.
pub open spec fn has_child(children: Seq<(Seq<u8>, Tree)>, name: Seq<u8>) -> bool {
    exists|i: int| 0 <= i < children.len() && children[i].0 == name
}

/// The place of a child called `name`.
pub open spec fn child_index(children: Seq<(Seq<u8>, Tree)>, name: Seq<u8>) -> int {
    choose|i: int| 0 <= i < children.len() && children[i].0 == name
}

/// The child called `name`, if there is one.
pub open spec fn child(children: Seq<(Seq<u8>, Tree)>, name: Seq<u8>) -> Option<Tree> {
    if has_child(children, name) {
        Some(children[child_index(children, name)].1)
    } else {
        None
    }
}

/// At every level the children are in strictly ascending order of their
/// names, so that no name occurs twice in a directory and a tree can be
/// written down in one way only.
pub open spec fn tree_wf(tree: Tree) -> bool
    decreases tree,
{
    match tree {
        Tree::Directory(children) => {
            &&& ascending(names(children))
            &&& forall|i: int|
                0 <= i < children.len() ==> tree_wf(#[trigger] children[i].1)
        },
        Tree::File(_) => true,
    }
}

/// The number of entries below `tree`: its children, their children, and so
/// on.
pub open spec fn entry_count(tree: Tree) -> nat
    decreases tree, 0nat,
{
    match tree {
        Tree::Directory(children) => entries_among(children, children.len()),
        Tree::File(_) => 0,
    }
}

/// The number of entries that the first `count` of `children` stand for:
/// each of them, and the entries below it.
pub open spec fn entries_among(children: Seq<(Seq<u8>, Tree)>, count: nat) -> nat
    decreases children, count,
{
    if count == 0 || count > children.len() {
        0
    } else {
        entries_among(children, (count - 1) as nat) + 1 + entry_count(children[count - 1].1)
    }
}

/// The most entries that a snapshot holds: as many as can be counted, with
/// room to count those of a second snapshot beside them.
pub const ENTRY_LIMIT: u64 = 0x7fff_ffff_ffff_ffff;

/// A snapshot as it is kept: in order at every level, and of no more
/// entries than [`ENTRY_LIMIT`].
pub open spec fn valid(tree: Tree) -> bool {
    tree_wf(tree) && entry_count(tree) <= ENTRY_LIMIT
}

/// More children stand for more entries.
pub proof fn lemma_entries_among_grows(children: Seq<(Seq<u8>, Tree)>, few: nat, many: nat)
    requires
        few <= many <= children.len(),
    ensures
        entries_among(children, few) + (many - few) <= entries_among(children, many),
    decreases many,
{
    if few < many {
        lemma_entries_among_grows(children, few, (many - 1) as nat);
    }
}

/// What stands in a directory as it is kept is as it is kept.
pub proof fn lemma_child_valid(children: Seq<(Seq<u8>, Tree)>, i: int)
    requires
        valid(Tree::Directory(children)),
        0 <= i < children.len(),
    ensures
        valid(children[i].1),
        entry_count(children[i].1) < entry_count(Tree::Directory(children)),
{
    assert(tree_wf(children[i].1));
    lemma_entries_among_grows(children, (i + 1) as nat, children.len());
}

/// How many of `children` have a name that comes before `name`: where a child
/// called `name` stands, or would have to stand.
pub open spec fn rank(children: Seq<(Seq<u8>, Tree)>, name: Seq<u8>) -> int
    decreases children.len(),
{
    if children.len() == 0 {
        0
    } else {
        rank(children.drop_last(), name) + if key_lt(children.last().0, name) {
            1int
        } else {
            0int
        }
    }
}

/// `children` with the child called `name` set to `tree`: in place of the
/// child of that name, or else added where the order of names puts it.
pub open spec fn put(children: Seq<(Seq<u8>, Tree)>, name: Seq<u8>, tree: Tree) -> Seq<
    (Seq<u8>, Tree),
> {
    if has_child(children, name) {
        children.update(child_index(children, name), (name, tree))
    } else {
        children.insert(rank(children, name), (name, tree))
    }
}

/// In a directory in order, the place up to which all names come before
/// `name` is the rank of `name`.
pub proof fn lemma_rank_is_boundary(children: Seq<(Seq<u8>, Tree)>, name: Seq<u8>, p: int)
    requires
        0 <= p <= children.len(),
        forall|i: int| 0 <= i < p ==> key_lt(#[trigger] children[i].0, name),
        forall|i: int| p <= i < children.len() ==> !key_lt(#[trigger] children[i].0, name),
    ensures
        rank(children, name) == p,
    decreases children.len(),
{
    if children.len() > 0 {
        let shorter = children.drop_last();
        let last = children.len() - 1;
        assert(forall|i: int| 0 <= i < shorter.len() ==> shorter[i] == children[i]);
        if p == children.len() {
            assert(key_lt(children[last].0, name));
            lemma_rank_is_boundary(shorter, name, p - 1);
        } else {
            assert(!key_lt(children[last].0, name));
            lemma_rank_is_boundary(shorter, name, p);
        }
    }
}

/// In a directory in order a name stands at one place at most.
pub proof fn lemma_child_unique(children: Seq<(Seq<u8>, Tree)>, i: int)
    requires
        ascending(names(children)),
        0 <= i < children.len(),
    ensures
        has_child(children, children[i].0),
        child_index(children, children[i].0) == i,
        child(children, children[i].0) == Some(children[i].1),
{
    let j = child_index(children, children[i].0);
    lemma_key_lt_irreflexive(children[i].0);
    if j < i {
        assert(key_lt(names(children)[j], names(children)[i]));
    } else if i < j {
        assert(key_lt(names(children)[i], names(children)[j]));
    }
}

/// Setting a child keeps the names in order.
pub proof fn lemma_put_ascending(children: Seq<(Seq<u8>, Tree)>, name: Seq<u8>, tree: Tree)
    requires
        ascending(names(children)),
    ensures
        ascending(names(put(children, name, tree))),
{
    let after = put(children, name, tree);
    if has_child(children, name) {
        assert forall|i: int, j: int| 0 <= i < j < after.len() implies key_lt(
            names(after)[i],
            names(after)[j],
        ) by {
            assert(key_lt(names(children)[i], names(children)[j]));
        }
    } else {
        let p = rank(children, name);
        lemma_rank_splits(children, name);
        assert forall|i: int, j: int| 0 <= i < j < after.len() implies key_lt(
            names(after)[i],
            names(after)[j],
        ) by {
            if j < p {
                assert(key_lt(names(children)[i], names(children)[j]));
            } else if j == p {
                assert(key_lt(children[i].0, name));
            } else if i < p {
                assert(key_lt(names(children)[i], names(children)[j - 1]));
            } else if i == p {
                assert(!key_lt(children[j - 1].0, name));
                assert(children[j - 1].0 != name);
                lemma_key_lt_total(name, children[j - 1].0);
            } else {
                assert(key_lt(names(children)[i - 1], names(children)[j - 1]));
            }
        }
    }
}

/// A directory in which a child was set holds that child and what is below
/// it.
pub proof fn lemma_put_holds(children: Seq<(Seq<u8>, Tree)>, name: Seq<u8>, tree: Tree)
    requires
        ascending(names(children)),
    ensures
        entry_count(Tree::Directory(put(children, name, tree))) >= 1 + entry_count(tree),
{
    let after = put(children, name, tree);
    let at = if has_child(children, name) {
        child_index(children, name)
    } else {
        rank(children, name)
    };
    lemma_rank_splits(children, name);
    assert(after[at] == (name, tree));
    lemma_entries_among_grows(after, (at + 1) as nat, after.len());
}

/// Setting a child keeps a directory in order, here and below.
pub proof fn lemma_put_wf(children: Seq<(Seq<u8>, Tree)>, name: Seq<u8>, tree: Tree)
    requires
        tree_wf(Tree::Directory(children)),
        tree_wf(tree),
    ensures
        tree_wf(Tree::Directory(put(children, name, tree))),
{
    let after = put(children, name, tree);
    lemma_put_ascending(children, name, tree);
    if has_child(children, name) {
        let p = child_index(children, name);
        assert forall|i: int| 0 <= i < after.len() implies tree_wf(#[trigger] after[i].1) by {
            if i != p {
                assert(tree_wf(children[i].1));
            }
        }
    } else {
        let p = rank(children, name);
        lemma_rank_splits(children, name);
        assert forall|i: int| 0 <= i < after.len() implies tree_wf(#[trigger] after[i].1) by {
            if i < p {
                assert(tree_wf(children[i].1));
            } else if i > p {
                assert(tree_wf(children[i - 1].1));
            }
        }
    }
}

/// In a directory in order, the names before the rank of `name` come before
/// `name`, and those from the rank on do not.
pub proof fn lemma_rank_splits(children: Seq<(Seq<u8>, Tree)>, name: Seq<u8>)
    requires
        ascending(names(children)),
    ensures
        0 <= rank(children, name) <= children.len(),
        forall|i: int| 0 <= i < rank(children, name) ==> key_lt(#[trigger] children[i].0, name),
        forall|i: int|
            rank(children, name) <= i < children.len() ==> !key_lt(
                #[trigger] children[i].0,
                name,
            ),
    decreases children.len(),
{
    if children.len() > 0 {
        let shorter = children.drop_last();
        let last = children.len() - 1;
        assert forall|i: int, j: int| 0 <= i < j < shorter.len() implies key_lt(
            names(shorter)[i],
            names(shorter)[j],
        ) by {
            assert(key_lt(names(children)[i], names(children)[j]));
        }
        lemma_rank_splits(shorter, name);
        assert(forall|i: int| 0 <= i < shorter.len() ==> shorter[i] == children[i]);
        if key_lt(children[last].0, name) {
            assert forall|i: int| 0 <= i < last implies key_lt(
                #[trigger] children[i].0,
                name,
            ) by {
                assert(key_lt(names(children)[i], names(children)[last]));
                lemma_key_lt_transitive(children[i].0, children[last].0, name);
            }
            if rank(shorter, name) < last {
                assert(!key_lt(shorter[rank(shorter, name)].0, name));
                assert(false);
            }
        }
    }
}

/// A directory without children.
pub open spec fn empty_directory() -> Tree {
    Tree::Directory(Seq::empty())
}

/// What stands at `path` below `tree`, if anything does. The path is walked
/// one component at a time; the empty path stands for `tree` itself, and
/// nothing stands below a file.
pub open spec fn tree_lookup(tree: Tree, path: Seq<Seq<u8>>) -> Option<Tree>
    decreases path.len(),
{
    if path.len() == 0 {
        Some(tree)
    } else {
        match tree {
            Tree::Directory(children) => match child(children, path[0]) {
                Some(below) => tree_lookup(below, path.skip(1)),
                None => None,
            },
            Tree::File(_) => None,
        }
    }
}

/// Whether `path` is free below `tree`: nothing stands at it yet, and no
/// file stands on the way to it. The empty path is never free.
pub open spec fn insertable(tree: Tree, path: Seq<Seq<u8>>) -> bool
    decreases path.len(),
{
    match tree {
        Tree::Directory(children) => if path.len() == 0 {
            false
        } else if path.len() == 1 {
            !has_child(children, path[0])
        } else {
            match child(children, path[0]) {
                Some(below) => insertable(below, path.skip(1)),
                None => true,
            }
        },
        Tree::File(_) => false,
    }
}

/// `tree` with `entry` placed at `path`. The directories on the way that do
/// not exist yet are made.
pub open spec fn tree_insert(tree: Tree, path: Seq<Seq<u8>>, entry: Tree) -> Tree
    decreases path.len(),
{
    match tree {
        Tree::Directory(children) => if path.len() == 0 {
            tree
        } else if path.len() == 1 {
            Tree::Directory(put(children, path[0], entry))
        } else {
            let below = match child(children, path[0]) {
                Some(below) => below,
                None => empty_directory(),
            };
            Tree::Directory(put(children, path[0], tree_insert(below, path.skip(1), entry)))
        },
        Tree::File(_) => tree,
    }
}

/// The children of a directory, kept in ascending order of their names.
#[derive(Debug, PartialEq, Eq)]
pub struct Directory {
    entries: Vec<(Vec<u8>, Entry)>,
}

/// A node of a snapshot: a directory of named children, or a file's metrics.
#[derive(Debug, PartialEq, Eq)]
pub enum Entry {
    Directory(Directory),
    File(Metrics),
}

impl Directory {
    /// The children as mathematical values, each with its name, in order.
    pub closed spec fn view(self) -> Seq<(Seq<u8>, Tree)>
        decreases self,
    {
        Seq::new(
            self.entries@.len(),
            |i: int|
                if 0 <= i < self.entries@.len() {
                    (self.entries@[i].0@, self.entries@[i].1.view())
                } else {
                    arbitrary()
                },
        )
    }

    /// The children are in order, here and in every directory below, and
    /// there are no more entries than [`ENTRY_LIMIT`].
    pub open spec fn wf(self) -> bool {
        valid(Tree::Directory(self@))
    }

    /// A directory without children.
    pub fn new() -> (directory: Directory)
        ensures
            directory@ == Seq::<(Seq<u8>, Tree)>::empty(),
            directory.wf(),
    {
        let directory = Directory { entries: Vec::new() };
        assert(directory@ =~= Seq::<(Seq<u8>, Tree)>::empty());
        directory
    }

    /// The number of children.
    pub fn len(&self) -> (n: usize)
        ensures
            n == self@.len(),
    {
        self.entries.len()
    }

    /// The name of the child at place `i`, counted in order of names.
    pub fn name_at(&self, i: usize) -> (name: &Vec<u8>)
        requires
            i < self@.len(),
        ensures
            name@ == self@[i as int].0,
    {
        &self.entries[i].0
    }

    /// The child at place `i`, counted in order of names.
    pub fn entry_at(&self, i: usize) -> (entry: &Entry)
        requires
            i < self@.len(),
        ensures
            entry@ == self@[i as int].1,
            self.wf() ==> entry.wf(),
    {
        proof {
            if self.wf() {
                lemma_child_valid(self@, i as int);
            }
        }
        &self.entries[i].1
    }

    /// Where a child called `name` stands, and whether there is one.
    fn search(&self, name: &[u8]) -> (found: (bool, usize))
        requires
            self.wf(),
        ensures
            found.0 == has_child(self@, name@),
            found.1 == rank(self@, name@),
            found.1 <= self@.len(),
            found.0 ==> found.1 < self@.len() && self@[found.1 as int].0 == name@,
    {
        let mut low: usize = 0;
        let mut high: usize = self.entries.len();
        while low < high
            invariant
                self.wf(),
                low <= high <= self@.len(),
                self@.len() == self.entries@.len(),
                forall|i: int| 0 <= i < low ==> key_lt(#[trigger] self@[i].0, name@),
                forall|i: int| high <= i < self@.len() ==> key_lt(name@, #[trigger] self@[i].0),
            decreases high - low,
        {
            let middle: usize = low + (high - low) / 2;
            match compare_keys(self.entries[middle].0.as_slice(), name) {
                KeyOrder::Less => {
                    proof {
                        assert forall|i: int| 0 <= i < middle + 1 implies key_lt(
                            #[trigger] self@[i].0,
                            name@,
                        ) by {
                            if i < middle {
                                assert(key_lt(names(self@)[i], names(self@)[middle as int]));
                                lemma_key_lt_transitive(self@[i].0, self@[middle as int].0, name@);
                            }
                        }
                    }
                    low = middle + 1;
                },
                KeyOrder::Greater => {
                    proof {
                        assert forall|i: int| middle <= i < self@.len() implies key_lt(
                            name@,
                            #[trigger] self@[i].0,
                        ) by {
                            if middle < i {
                                assert(key_lt(names(self@)[middle as int], names(self@)[i]));
                                lemma_key_lt_transitive(name@, self@[middle as int].0, self@[i].0);
                            }
                        }
                    }
                    high = middle;
                },
                KeyOrder::Equal => {
                    proof {
                        lemma_key_lt_irreflexive(name@);
                        assert forall|i: int| 0 <= i < middle implies key_lt(
                            #[trigger] self@[i].0,
                            name@,
                        ) by {
                            assert(key_lt(names(self@)[i], names(self@)[middle as int]));
                        }
                        assert forall|i: int| middle <= i < self@.len() implies !key_lt(
                            #[trigger] self@[i].0,
                            name@,
                        ) by {
                            if middle < i {
                                assert(key_lt(names(self@)[middle as int], names(self@)[i]));
                                lemma_key_lt_asymmetric(name@, self@[i].0);
                            }
                        }
                        lemma_rank_is_boundary(self@, name@, middle as int);
                        assert(self@[middle as int].0 == name@);
                    }
                    return (true, middle);
                },
            }
        }
        proof {
            lemma_key_lt_irreflexive(name@);
            assert forall|i: int| low <= i < self@.len() implies !key_lt(
                #[trigger] self@[i].0,
                name@,
            ) by {
                lemma_key_lt_asymmetric(name@, self@[i].0);
            }
            lemma_rank_is_boundary(self@, name@, low as int);
            if has_child(self@, name@) {
                let i = child_index(self@, name@);
                assert(self@[i].0 == name@);
            }
        }
        (false, low)
    }

    /// The child called `name`, if there is one.
    pub fn get(&self, name: &[u8]) -> (entry: Option<&Entry>)
        requires
            self.wf(),
        ensures
            match entry {
                Some(e) => child(self@, name@) == Some(e@) && e.wf(),
                None => child(self@, name@) is None,
            },
    {
        let (found, place) = self.search(name);
        if found {
            proof {
                lemma_child_unique(self@, place as int);
                lemma_child_valid(self@, place as int);
            }
            Some(&self.entries[place].1)
        } else {
            None
        }
    }

    /// Sets the child called `name` to `entry`, and hands back the child that
    /// had the name before.
    ///
    /// There must be room for what is set: the directory may not come to
    /// hold more entries than [`ENTRY_LIMIT`].
    pub fn insert(&mut self, name: Vec<u8>, entry: Entry) -> (before: Option<Entry>)
        requires
            old(self).wf(),
            entry.wf(),
            entry_count(Tree::Directory(put(old(self)@, name@, entry@))) <= ENTRY_LIMIT,
        ensures
            final(self).wf(),
            final(self)@ == put(old(self)@, name@, entry@),
            match before {
                Some(e) => child(old(self)@, name@) == Some(e@),
                None => child(old(self)@, name@) is None,
            },
    {
        let (found, place) = self.search(name.as_slice());
        let ghost before_view = self@;
        let ghost name_view = name@;
        let ghost entry_view = entry@;
        if found {
            proof {
                lemma_child_unique(self@, place as int);
            }
            let replaced = self.entries.remove(place);
            self.entries.insert(place, (name, entry));
            proof {
                assert(self@ =~= before_view.update(place as int, (name_view, entry_view)));
                lemma_put_wf(before_view, name_view, entry_view);
            }
            Some(replaced.1)
        } else {
            self.entries.insert(place, (name, entry));
            proof {
                assert(self@ =~= before_view.insert(place as int, (name_view, entry_view)));
                lemma_put_wf(before_view, name_view, entry_view);
            }
            None
        }
    }

    /// The child called `name`, to be changed in place. Where there is none,
    /// an empty directory is put under that name first.
    fn get_default(&mut self, name: Vec<u8>) -> (slot: &mut Entry)
        requires
            old(self).wf(),
        ensures
            slot@ == (match child(old(self)@, name@) {
                Some(below) => below,
                None => empty_directory(),
            }),
            final(self)@ == put(old(self)@, name@, final(slot)@),
    {
        let (found, place) = self.search(name.as_slice());
        proof {
            if found {
                lemma_child_unique(self@, place as int);
            }
        }
        if !found {
            self.entries.insert(place, (name, Entry::default()));
        }
        &mut self.entries[place].1
    }
}

impl Clone for Directory {
    /// A directory of the same children.
    fn clone(&self) -> (copy: Directory)
        ensures
            copy@ == self@,
        decreases self@,
    {
        let mut entries: Vec<(Vec<u8>, Entry)> = Vec::new();
        let mut i: usize = 0;
        while i < self.entries.len()
            invariant
                i <= self.entries.len(),
                entries@.len() == i,
                forall|k: int|
                    0 <= k < i ==> (#[trigger] entries@[k]).0@ == self.entries@[k].0@
                        && entries@[k].1@ == self.entries@[k].1@,
            decreases self.entries.len() - i,
        {
            let name = self.entries[i].0.clone();
            proof {
                assert(name@ =~= self.entries@[i as int].0@);
                assert(self@[i as int].1 == self.entries@[i as int].1@);
                assert(decreases_to!(self@ => self@[i as int].1));
            }
            let entry = self.entries[i].1.clone();
            entries.push((name, entry));
            i += 1;
        }
        let copy = Directory { entries };
        assert(copy@ =~= self@);
        copy
    }
}

impl Clone for Entry {
    /// An entry that stands for the same tree.
    fn clone(&self) -> (copy: Entry)
        ensures
            copy@ == self@,
        decreases self@,
    {
        match self {
            Entry::Directory(directory) => {
                proof {
                    assert(decreases_to!(self@ => self@->Directory_0));
                }
                Entry::Directory(directory.clone())
            },
            Entry::File(metrics) => Entry::File(metrics.clone()),
        }
    }
}

impl Default for Entry {
    /// A directory without children.
    fn default() -> (entry: Entry)
        ensures
            entry@ == empty_directory(),
            entry.wf(),
    {
        Entry::Directory(Directory::new())
    }
}

impl Entry {
    /// The entry as a mathematical value.
    pub open spec fn view(self) -> Tree
        decreases self,
    {
        match self {
            Entry::Directory(directory) => Tree::Directory(directory.view()),
            Entry::File(metrics) => Tree::File(metrics@),
        }
    }

    /// The snapshot is written down in the one way its tree allows, and it
    /// holds no more entries than [`ENTRY_LIMIT`].
    pub open spec fn wf(self) -> bool {
        valid(self@)
    }

    /// Places `file` at `path`, which is walked one component at a time from
    /// this entry down. The directories on the way that do not exist yet are
    /// made.
    ///
    /// The path must be free: a path is never filled twice, and nothing is
    /// placed below a file. And there must be room: the snapshot may not
    /// come to hold more entries than [`ENTRY_LIMIT`].
    pub fn insert(&mut self, path: &[Vec<u8>], file: Entry)
        requires
            old(self).wf(),
            file.wf(),
            insertable(old(self)@, path.deep_view()),
            entry_count(tree_insert(old(self)@, path.deep_view(), file@)) <= ENTRY_LIMIT,
        ensures
            final(self).wf(),
            final(self)@ == tree_insert(old(self)@, path.deep_view(), file@),
        decreases path@.len(),
    {
        let ghost steps = path.deep_view();
        match self {
            Entry::Directory(entries) => {
                let first = path[0].clone();
                proof {
                    assert(first@ =~= path@[0]@);
                    assert(steps[0] == path@[0]@);
                }
                if path.len() > 1 {
                    let rest = &path[1..path.len()];
                    proof {
                        assert(rest.deep_view() =~= steps.skip(1));
                    }
                    let ghost children = entries@;
                    let ghost entry = file@;
                    let subentry = entries.get_default(first);
                    let ghost below = subentry@;
                    proof {
                        if has_child(children, steps[0]) {
                            lemma_child_valid(children, child_index(children, steps[0]));
                        }
                        lemma_put_holds(
                            children,
                            steps[0],
                            tree_insert(below, steps.skip(1), entry),
                        );
                    }
                    subentry.insert(rest, file);
                    proof {
                        lemma_put_wf(children, steps[0], tree_insert(below, steps.skip(1), entry));
                    }
                } else {
                    // The path is free, so no child is displaced.
                    entries.insert(first, file);
                }
            },
            // Nothing is placed below a file.
            Entry::File(_) => {},
        }
    }

    /// Whether `path` is free, so that an entry can be placed at it.
    pub fn can_insert(&self, path: &[Vec<u8>]) -> (free: bool)
        requires
            self.wf(),
        ensures
            free == insertable(self@, path.deep_view()),
        decreases path@.len(),
    {
        match self {
            Entry::Directory(entries) => {
                if path.len() == 0 {
                    return false;
                }
                let rest = &path[1..path.len()];
                proof {
                    assert(rest.deep_view() =~= path.deep_view().skip(1));
                    assert(path.deep_view()[0] == path@[0]@);
                }
                match entries.get(path[0].as_slice()) {
                    Some(subentry) => {
                        if path.len() == 1 {
                            false
                        } else {
                            subentry.can_insert(rest)
                        }
                    },
                    None => true,
                }
            },
            Entry::File(_) => false,
        }
    }

    /// The number of entries below this one, unless it is too large to be
    /// told. With it a caller can tell whether there is room for more
    /// entries.
    pub fn count_entries(&self) -> (count: Option<u64>)
        ensures
            match count {
                Some(n) => n == entry_count(self@),
                None => entry_count(self@) > u64::MAX,
            },
        decreases self@,
    {
        match self {
            Entry::Directory(entries) => {
                let ghost children = entries@;
                let mut total: u64 = 0;
                let mut i: usize = 0;
                let len: usize = entries.len();
                while i < len
                    invariant
                        i <= len,
                        len == children.len(),
                        children == entries@,
                        self@ == Tree::Directory(children),
                        total == entries_among(children, i as nat),
                    decreases len - i,
                {
                    proof {
                        lemma_entries_among_grows(children, (i + 1) as nat, children.len());
                        assert(decreases_to!(self@ => self@->Directory_0[i as int].1));
                    }
                    let below = match entries.entry_at(i).count_entries() {
                        Some(below) => below,
                        None => {
                            return None;
                        },
                    };
                    let with_child = match total.checked_add(1) {
                        Some(sum) => sum,
                        None => {
                            return None;
                        },
                    };
                    total = match with_child.checked_add(below) {
                        Some(sum) => sum,
                        None => {
                            return None;
                        },
                    };
                    i += 1;
                }
                Some(total)
            },
            Entry::File(_) => Some(0),
        }
    }

    /// What stands at `path`, which is walked one component at a time from
    /// this entry down, if anything does.
    pub fn lookup(&self, path: &[Vec<u8>]) -> (entry: Option<&Entry>)
        requires
            self.wf(),
        ensures
            match entry {
                Some(found) => tree_lookup(self@, path.deep_view()) == Some(found@),
                None => tree_lookup(self@, path.deep_view()) is None,
            },
        decreases path@.len(),
    {
        if path.len() == 0 {
            return Some(self);
        }
        match self {
            Entry::Directory(entries) => {
                let rest = &path[1..path.len()];
                proof {
                    assert(rest.deep_view() =~= path.deep_view().skip(1));
                    assert(path.deep_view()[0] == path@[0]@);
                }
                match entries.get(path[0].as_slice()) {
                    Some(subentry) => subentry.lookup(rest),
                    None => None,
                }
            },
            Entry::File(_) => None,
        }
    }
}

/// The name under which a file found at `path` is recorded in the snapshot of
/// everything below `root`, both given by their components: the path from
/// the root on. A snapshot of a single file records it under its own name.
/// There is no such name for a path that does not lie below the root.
pub open spec fn relative_key(root: Seq<Seq<u8>>, path: Seq<Seq<u8>>) -> Option<Seq<Seq<u8>>> {
    if path == root {
        Some(seq![path.last()])
    } else if root.is_prefix_of(path) {
        Some(path.skip(root.len() as int))
    } else {
        None
    }
}

/// The name under which a file found at `path` is recorded in the snapshot of
/// everything below `root`.
pub fn entry_key(root: &[Vec<u8>], path: &[Vec<u8>]) -> (key: Result<Vec<Vec<u8>>, Error>)
    requires
        path@.len() > 0,
    ensures
        match key {
            Ok(name) => relative_key(root.deep_view(), path.deep_view()) == Some(
                name.deep_view(),
            ),
            Err(Error::StripPrefix) => relative_key(root.deep_view(), path.deep_view()) is None,
            Err(_) => false,
        },
{
    let ghost above = root.deep_view();
    let ghost whole = path.deep_view();
    if root.len() > path.len() {
        proof {
            assert(above.len() > whole.len());
        }
        return Err(Error::StripPrefix);
    }
    let mut i: usize = 0;
    while i < root.len()
        invariant
            i <= root.len() <= path.len(),
            above == root.deep_view(),
            whole == path.deep_view(),
            forall|k: int| 0 <= k < i ==> above[k] == whole[k],
        decreases root.len() - i,
    {
        proof {
            assert(above[i as int] == root@[i as int]@);
            assert(whole[i as int] == path@[i as int]@);
        }
        match compare_keys(root[i].as_slice(), path[i].as_slice()) {
            KeyOrder::Equal => {},
            _ => {
                proof {
                    if above.is_prefix_of(whole) {
                        assert(above[i as int] == whole.subrange(0, above.len() as int)[i as int]);
                    }
                }
                return Err(Error::StripPrefix);
            },
        }
        i += 1;
    }
    proof {
        assert(above =~= whole.subrange(0, above.len() as int));
    }
    let mut key: Vec<Vec<u8>> = Vec::new();
    if root.len() == path.len() {
        let name = path[path.len() - 1].clone();
        proof {
            assert(above =~= whole);
            assert(name@ =~= path@[path.len() - 1]@);
            assert(whole.last() == path@[path.len() - 1]@);
        }
        key.push(name);
        proof {
            assert(key.deep_view() =~= seq![whole.last()]);
        }
        return Ok(key);
    }
    let mut j: usize = root.len();
    proof {
        assert(key.deep_view() =~= whole.subrange(root.len() as int, j as int));
    }
    while j < path.len()
        invariant
            root.len() <= j <= path.len(),
            whole == path.deep_view(),
            key.deep_view() == whole.subrange(root.len() as int, j as int),
        decreases path.len() - j,
    {
        let name = path[j].clone();
        let ghost before = key.deep_view();
        proof {
            assert(name@ =~= path@[j as int]@);
            assert(whole[j as int] == path@[j as int]@);
        }
        key.push(name);
        proof {
            assert(key.deep_view() =~= before.push(whole[j as int]));
            assert(before.push(whole[j as int]) =~= whole.subrange(
                root.len() as int,
                j as int + 1,
            ));
        }
        j += 1;
    }
    proof {
        assert(whole.subrange(root.len() as int, whole.len() as int) =~= whole.skip(
            root.len() as int,
        ));
        assert(above.len() != whole.len());
    }
    Ok(key)
}

/// A snapshot of a directory tree: the entry at its root, as a rule a
/// directory. It is built once and read from then on.
#[derive(Debug, PartialEq, Eq)]
pub struct Database(pub Entry);

impl Default for Database {
    /// The snapshot of an empty directory.
    fn default() -> (database: Database)
        ensures
            database@ == empty_directory(),
            database.wf(),
    {
        Database(Entry::default())
    }
}

impl Clone for Database {
    /// A snapshot that stands for the same tree.
    fn clone(&self) -> (copy: Database)
        ensures
            copy@ == self@,
    {
        Database(self.0.clone())
    }
}

impl Database {
    /// The snapshot as a mathematical value.
    pub open spec fn view(self) -> Tree {
        self.0@
    }

    /// The snapshot is written down in the one way its tree allows, and it
    /// holds no more entries than [`ENTRY_LIMIT`].
    pub open spec fn wf(self) -> bool {
        valid(self@)
    }

    /// Places `entry` at `path`, counted from the root. See [`Entry::insert`].
    pub fn insert(&mut self, path: &[Vec<u8>], entry: Entry)
        requires
            old(self).wf(),
            entry.wf(),
            insertable(old(self)@, path.deep_view()),
            entry_count(tree_insert(old(self)@, path.deep_view(), entry@)) <= ENTRY_LIMIT,
        ensures
            final(self).wf(),
            final(self)@ == tree_insert(old(self)@, path.deep_view(), entry@),
    {
        self.0.insert(path, entry);
    }

    /// Whether `path`, counted from the root, is free.
    pub fn can_insert(&self, path: &[Vec<u8>]) -> (free: bool)
        requires
            self.wf(),
        ensures
            free == insertable(self@, path.deep_view()),
    {
        self.0.can_insert(path)
    }

    /// What stands at `path`, counted from the root, if anything does.
    pub fn lookup(&self, path: &[Vec<u8>]) -> (entry: Option<&Entry>)
        requires
            self.wf(),
        ensures
            match entry {
                Some(found) => tree_lookup(self@, path.deep_view()) == Some(found@),
                None => tree_lookup(self@, path.deep_view()) is None,
            },
    {
        self.0.lookup(path)
    }
}

} // verus!
