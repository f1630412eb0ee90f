//! What holds of filling a snapshot.
//!
//! An entry that was placed is found again, what stood elsewhere stays, and
//! the order in which entries are placed does not show in the snapshot. This
//! is why a snapshot may be filled by several workers at once: whichever of
//! them comes first, the result is the same.

use vstd::prelude::*;
use crate::database::{
    child, child_index, empty_directory, entries_among, entry_count, has_child, insertable,
    lemma_child_unique, lemma_put_ascending, lemma_put_wf, lemma_rank_splits, names, put, rank,
    tree_insert, tree_lookup, tree_wf, Tree,
};
use crate::keys::{ascending, key_lt, lemma_key_lt_asymmetric, lemma_key_lt_irreflexive};

verus! {

/// A directory answers like a mapping: after a child was set, its name gives
/// the new child, and every other name gives what it gave before.
pub proof fn lemma_put_child(
    children: Seq<(Seq<u8>, Tree)>,
    name: Seq<u8>,
    tree: Tree,
    other: Seq<u8>,
)
    requires
        ascending(names(children)),
    ensures
        child(put(children, name, tree), other) == if other == name {
            Some(tree)
        } else {
            child(children, other)
        },
{
    let after = put(children, name, tree);
    lemma_put_ascending(children, name, tree);
    if has_child(children, name) {
        let at = child_index(children, name);
        if other == name {
            lemma_child_unique(after, at);
        } else {
            if has_child(children, other) {
                let j = child_index(children, other);
                assert(after[j].0 == other);
                lemma_child_unique(after, j);
            } else if has_child(after, other) {
                let j = child_index(after, other);
                assert(children[j].0 == other);
            }
        }
    } else {
        let p = rank(children, name);
        lemma_rank_splits(children, name);
        if other == name {
            assert(after[p] == (name, tree));
            lemma_child_unique(after, p);
        } else {
            if has_child(children, other) {
                let j = child_index(children, other);
                let moved = if j < p {
                    j
                } else {
                    j + 1
                };
                assert(after[moved] == children[j]);
                lemma_child_unique(after, moved);
            } else if has_child(after, other) {
                let j = child_index(after, other);
                let back = if j < p {
                    j
                } else {
                    j - 1
                };
                assert(children[back].0 == other);
            }
        }
    }
}

/// Without its last child, a directory in order gives nothing under the name
/// of that child and is otherwise unchanged.
proof fn lemma_child_without_last(children: Seq<(Seq<u8>, Tree)>, other: Seq<u8>)
    requires
        ascending(names(children)),
        children.len() > 0,
    ensures
        ascending(names(children.drop_last())),
        child(children.drop_last(), other) == if other == children.last().0 {
            None
        } else {
            child(children, other)
        },
{
    let shorter = children.drop_last();
    let last = children.len() - 1;
    assert forall|i: int, j: int| 0 <= i < j < shorter.len() implies key_lt(
        names(shorter)[i],
        names(shorter)[j],
    ) by {
        assert(key_lt(names(children)[i], names(children)[j]));
    }
    if has_child(shorter, other) {
        let j = child_index(shorter, other);
        assert(children[j].0 == other);
        lemma_child_unique(children, j);
        if other == children.last().0 {
            lemma_child_unique(children, last);
        }
    } else if has_child(children, other) {
        let j = child_index(children, other);
        if j < last {
            assert(shorter[j].0 == other);
        } else {
            lemma_child_unique(children, last);
        }
    }
}

/// Two directories in order that give the same child under every name are
/// the same directory.
pub proof fn lemma_children_determined(a: Seq<(Seq<u8>, Tree)>, b: Seq<(Seq<u8>, Tree)>)
    requires
        ascending(names(a)),
        ascending(names(b)),
        forall|name: Seq<u8>|
            #![trigger child(a, name)]
            #![trigger child(b, name)]
            child(a, name) == child(b, name),
    ensures
        a == b,
    decreases a.len(),
{
    if a.len() == 0 {
        if b.len() > 0 {
            lemma_child_unique(b, 0);
            assert(child(a, b[0].0) == child(b, b[0].0));
        }
        assert(a =~= b);
    } else {
        let last_a = a.len() - 1;
        lemma_child_unique(a, last_a);
        assert(child(b, a[last_a].0) == child(a, a[last_a].0));
        let j = child_index(b, a[last_a].0);
        let last_b = b.len() - 1;
        lemma_child_unique(b, last_b);
        assert(child(a, b[last_b].0) == child(b, b[last_b].0));
        let i = child_index(a, b[last_b].0);
        lemma_key_lt_irreflexive(a[last_a].0);
        if i < last_a {
            assert(key_lt(names(a)[i], names(a)[last_a]));
            if j < last_b {
                assert(key_lt(names(b)[j], names(b)[last_b]));
                lemma_key_lt_asymmetric(b[last_b].0, a[last_a].0);
            }
        }
        assert(a[last_a].0 == b[last_b].0);
        assert(a[last_a] == b[last_b]);
        assert forall|name: Seq<u8>|
            #![trigger child(a.drop_last(), name)]
            #![trigger child(b.drop_last(), name)]
            child(a.drop_last(), name) == child(b.drop_last(), name) by {
            lemma_child_without_last(a, name);
            lemma_child_without_last(b, name);
            assert(child(a, name) == child(b, name));
        }
        lemma_child_without_last(a, a[last_a].0);
        lemma_child_without_last(b, a[last_a].0);
        lemma_children_determined(a.drop_last(), b.drop_last());
        assert(a =~= a.drop_last().push(a[last_a]));
        assert(b =~= b.drop_last().push(b[last_b]));
    }
}

/// Setting a child twice is setting it to the second value.
pub proof fn lemma_put_again(
    children: Seq<(Seq<u8>, Tree)>,
    name: Seq<u8>,
    first: Tree,
    second: Tree,
)
    requires
        ascending(names(children)),
    ensures
        put(put(children, name, first), name, second) == put(children, name, second),
{
    let once = put(children, name, first);
    lemma_put_ascending(children, name, first);
    lemma_put_ascending(once, name, second);
    lemma_put_ascending(children, name, second);
    assert forall|other: Seq<u8>|
        #![trigger child(put(once, name, second), other)]
        #![trigger child(put(children, name, second), other)]
        child(put(once, name, second), other) == child(put(children, name, second), other) by {
        lemma_put_child(children, name, first, other);
        lemma_put_child(once, name, second, other);
        lemma_put_child(children, name, second, other);
    }
    lemma_children_determined(put(once, name, second), put(children, name, second));
}

/// Children of different names can be set in either order.
pub proof fn lemma_put_commutes(
    children: Seq<(Seq<u8>, Tree)>,
    one: Seq<u8>,
    tree_one: Tree,
    two: Seq<u8>,
    tree_two: Tree,
)
    requires
        ascending(names(children)),
        one != two,
    ensures
        put(put(children, one, tree_one), two, tree_two) == put(
            put(children, two, tree_two),
            one,
            tree_one,
        ),
{
    let first = put(children, one, tree_one);
    let second = put(children, two, tree_two);
    lemma_put_ascending(children, one, tree_one);
    lemma_put_ascending(children, two, tree_two);
    lemma_put_ascending(first, two, tree_two);
    lemma_put_ascending(second, one, tree_one);
    assert forall|other: Seq<u8>|
        #![trigger child(put(first, two, tree_two), other)]
        #![trigger child(put(second, one, tree_one), other)]
        child(put(first, two, tree_two), other) == child(put(second, one, tree_one), other) by {
        lemma_put_child(children, one, tree_one, other);
        lemma_put_child(children, two, tree_two, other);
        lemma_put_child(first, two, tree_two, other);
        lemma_put_child(second, one, tree_one, other);
    }
    lemma_children_determined(put(first, two, tree_two), put(second, one, tree_one));
}

/// A child put between others adds itself and what is below it to the
/// entries that are counted from its place on.
proof fn lemma_entries_among_insert(
    children: Seq<(Seq<u8>, Tree)>,
    at: int,
    new: (Seq<u8>, Tree),
    count: nat,
)
    requires
        0 <= at <= children.len(),
        count <= children.len() + 1,
    ensures
        entries_among(children.insert(at, new), count) == if count <= at {
            entries_among(children, count)
        } else {
            entries_among(children, (count - 1) as nat) + 1 + entry_count(new.1)
        },
    decreases count,
{
    if count > 0 {
        lemma_entries_among_insert(children, at, new, (count - 1) as nat);
    }
}

/// A child put in the place of another takes the other and what is below it
/// out of the entries that are counted from its place on, and adds what is
/// below itself.
proof fn lemma_entries_among_update(
    children: Seq<(Seq<u8>, Tree)>,
    at: int,
    new: (Seq<u8>, Tree),
    count: nat,
)
    requires
        0 <= at < children.len(),
        count <= children.len(),
    ensures
        entries_among(children.update(at, new), count) + (if count <= at {
            0
        } else {
            entry_count(children[at].1)
        }) == entries_among(children, count) + (if count <= at {
            0
        } else {
            entry_count(new.1)
        }),
    decreases count,
{
    if count > 0 {
        lemma_entries_among_update(children, at, new, (count - 1) as nat);
    }
}

/// How many entries a directory holds after a child was set: one more and
/// those below the child where the name is new, and otherwise those below
/// the new child in place of those below the old.
pub proof fn lemma_put_count(children: Seq<(Seq<u8>, Tree)>, name: Seq<u8>, tree: Tree)
    requires
        ascending(names(children)),
    ensures
        entry_count(Tree::Directory(put(children, name, tree))) + (match child(children, name) {
            Some(before) => 1 + entry_count(before),
            None => 0,
        }) == entry_count(Tree::Directory(children)) + 1 + entry_count(tree),
{
    if has_child(children, name) {
        lemma_entries_among_update(
            children,
            child_index(children, name),
            (name, tree),
            children.len(),
        );
    } else {
        lemma_rank_splits(children, name);
        lemma_entries_among_insert(
            children,
            rank(children, name),
            (name, tree),
            children.len() + 1,
        );
    }
}

/// Placing an entry adds no more entries than the entry, what is below it,
/// and one directory for each further component of its path.
pub proof fn lemma_insert_count(tree: Tree, path: Seq<Seq<u8>>, entry: Tree)
    requires
        tree_wf(tree),
    ensures
        entry_count(tree_insert(tree, path, entry)) <= entry_count(tree) + path.len()
            + entry_count(entry),
    decreases path.len(),
{
    match tree {
        Tree::Directory(children) => {
            if path.len() == 1 {
                lemma_put_count(children, path[0], entry);
            } else if path.len() > 1 {
                let below = match child(children, path[0]) {
                    Some(below) => below,
                    None => empty_directory(),
                };
                if has_child(children, path[0]) {
                    assert(tree_wf(children[child_index(children, path[0])].1));
                }
                lemma_insert_count(below, path.skip(1), entry);
                lemma_put_count(children, path[0], tree_insert(below, path.skip(1), entry));
            }
        },
        Tree::File(_) => {},
    }
}

/// Placing an entry in a snapshot in order gives a snapshot in order.
pub proof fn lemma_insert_wf(tree: Tree, path: Seq<Seq<u8>>, entry: Tree)
    requires
        tree_wf(tree),
        tree_wf(entry),
    ensures
        tree_wf(tree_insert(tree, path, entry)),
    decreases path.len(),
{
    match tree {
        Tree::Directory(children) => {
            if path.len() == 1 {
                lemma_put_wf(children, path[0], entry);
            } else if path.len() > 1 {
                let below = match child(children, path[0]) {
                    Some(below) => below,
                    None => empty_directory(),
                };
                if has_child(children, path[0]) {
                    assert(tree_wf(children[child_index(children, path[0])].1));
                }
                lemma_insert_wf(below, path.skip(1), entry);
                lemma_put_wf(
                    children,
                    path[0],
                    tree_insert(below, path.skip(1), entry),
                );
            }
        },
        Tree::File(_) => {},
    }
}

/// What was placed at a free path is found there.
pub proof fn lemma_lookup_inserted(tree: Tree, path: Seq<Seq<u8>>, entry: Tree)
    requires
        tree_wf(tree),
        insertable(tree, path),
    ensures
        tree_lookup(tree_insert(tree, path, entry), path) == Some(entry),
    decreases path.len(),
{
    let children = tree->Directory_0;
    if path.len() == 1 {
        lemma_put_child(children, path[0], entry, path[0]);
        assert(tree_lookup(entry, path.skip(1)) == Some(entry));
    } else {
        let below = match child(children, path[0]) {
            Some(below) => below,
            None => empty_directory(),
        };
        if has_child(children, path[0]) {
            assert(tree_wf(children[child_index(children, path[0])].1));
        } else {
            assert(insertable(empty_directory(), path.skip(1)));
        }
        lemma_lookup_inserted(below, path.skip(1), entry);
        lemma_put_child(children, path[0], tree_insert(below, path.skip(1), entry), path[0]);
    }
}

/// Two paths part: at some component that both of them have they differ, so
/// that neither leads to the other.
pub open spec fn parted(one: Seq<Seq<u8>>, two: Seq<Seq<u8>>) -> bool {
    exists|i: int| 0 <= i < one.len() && i < two.len() && one[i] != two[i]
}

/// Paths that part after a common first component part in what follows it.
proof fn lemma_parted_below(one: Seq<Seq<u8>>, two: Seq<Seq<u8>>)
    requires
        parted(one, two),
        one[0] == two[0],
    ensures
        one.len() > 1,
        two.len() > 1,
        parted(one.skip(1), two.skip(1)),
{
    let i = choose|i: int| 0 <= i < one.len() && i < two.len() && one[i] != two[i];
    assert(one.skip(1)[i - 1] != two.skip(1)[i - 1]);
}

/// Placing an entry leaves alone what stands at the paths that part from
/// its own.
pub proof fn lemma_insert_keeps_others(
    tree: Tree,
    path: Seq<Seq<u8>>,
    entry: Tree,
    other: Seq<Seq<u8>>,
)
    requires
        tree_wf(tree),
        parted(path, other),
    ensures
        tree_lookup(tree_insert(tree, path, entry), other) == tree_lookup(tree, other),
    decreases path.len(),
{
    match tree {
        Tree::Directory(children) => {
            let below = match child(children, path[0]) {
                Some(below) => below,
                None => empty_directory(),
            };
            let placed = if path.len() == 1 {
                entry
            } else {
                tree_insert(below, path.skip(1), entry)
            };
            lemma_put_child(children, path[0], placed, other[0]);
            if path[0] == other[0] {
                lemma_parted_below(path, other);
                if has_child(children, path[0]) {
                    assert(tree_wf(children[child_index(children, path[0])].1));
                }
                lemma_insert_keeps_others(below, path.skip(1), entry, other.skip(1));
            }
        },
        Tree::File(_) => {},
    }
}

/// Placing an entry leaves free the paths that part from its own.
pub proof fn lemma_insert_keeps_free(
    tree: Tree,
    path: Seq<Seq<u8>>,
    entry: Tree,
    other: Seq<Seq<u8>>,
)
    requires
        tree_wf(tree),
        insertable(tree, path),
        insertable(tree, other),
        parted(path, other),
    ensures
        insertable(tree_insert(tree, path, entry), other),
    decreases path.len(),
{
    let children = tree->Directory_0;
    let below = match child(children, path[0]) {
        Some(below) => below,
        None => empty_directory(),
    };
    let placed = if path.len() == 1 {
        entry
    } else {
        tree_insert(below, path.skip(1), entry)
    };
    lemma_put_child(children, path[0], placed, other[0]);
    if path[0] == other[0] {
        lemma_parted_below(path, other);
        if has_child(children, path[0]) {
            assert(tree_wf(children[child_index(children, path[0])].1));
        } else {
            assert(insertable(empty_directory(), path.skip(1)));
            assert(insertable(empty_directory(), other.skip(1)));
        }
        lemma_insert_keeps_free(below, path.skip(1), entry, other.skip(1));
    }
}

/// The order in which two entries are placed does not show: at paths that
/// part, placing one and then the other gives the snapshot that placing them
/// the other way round gives.
pub proof fn lemma_insert_order(
    tree: Tree,
    one: Seq<Seq<u8>>,
    entry_one: Tree,
    two: Seq<Seq<u8>>,
    entry_two: Tree,
)
    requires
        tree_wf(tree),
        tree_wf(entry_one),
        tree_wf(entry_two),
        parted(one, two),
    ensures
        tree_insert(tree_insert(tree, one, entry_one), two, entry_two) == tree_insert(
            tree_insert(tree, two, entry_two),
            one,
            entry_one,
        ),
    decreases one.len(),
{
    match tree {
        Tree::Directory(children) => {
            let below_one = match child(children, one[0]) {
                Some(below) => below,
                None => empty_directory(),
            };
            let below_two = match child(children, two[0]) {
                Some(below) => below,
                None => empty_directory(),
            };
            let placed_one = if one.len() == 1 {
                entry_one
            } else {
                tree_insert(below_one, one.skip(1), entry_one)
            };
            let placed_two = if two.len() == 1 {
                entry_two
            } else {
                tree_insert(below_two, two.skip(1), entry_two)
            };
            lemma_put_child(children, one[0], placed_one, two[0]);
            lemma_put_child(children, two[0], placed_two, one[0]);
            if one[0] != two[0] {
                lemma_put_commutes(children, one[0], placed_one, two[0], placed_two);
            } else {
                lemma_parted_below(one, two);
                if has_child(children, one[0]) {
                    assert(tree_wf(children[child_index(children, one[0])].1));
                }
                lemma_insert_order(below_one, one.skip(1), entry_one, two.skip(1), entry_two);
                lemma_put_again(
                    children,
                    one[0],
                    placed_one,
                    tree_insert(placed_one, two.skip(1), entry_two),
                );
                lemma_put_again(
                    children,
                    one[0],
                    placed_two,
                    tree_insert(placed_two, one.skip(1), entry_one),
                );
            }
        },
        Tree::File(_) => {},
    }
}

} // verus!
