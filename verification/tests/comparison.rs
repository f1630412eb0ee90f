use integrity_checker::database::{
    Database, DiffSummary, DirectoryDiff, Entry, EntryDiff, Features, HashSum, Metrics,
    MetricsDiff,
};
use integrity_checker::metrics::compute_metrics;

const NONE: Features = Features { sha2: false, blake2b: false };
const SHA2: Features = Features { sha2: true, blake2b: false };
const BLAKE2B: Features = Features { sha2: false, blake2b: true };
const ALL: Features = Features { sha2: true, blake2b: true };

fn path(text: &str) -> Vec<Vec<u8>> {
    text.split('/').map(|component| component.as_bytes().to_vec()).collect()
}

fn build(files: &[(&str, &[u8])], features: Features) -> Database {
    let mut database = Database::default();
    for (name, content) in files {
        database.insert(&path(name), Entry::File(compute_metrics(content, features)));
    }
    database
}

fn sized(size: u64) -> Metrics {
    Metrics { sha2: None, blake2b: None, size, nul: false, nonascii: false }
}

fn same_file() -> EntryDiff {
    EntryDiff::File(MetricsDiff {
        changed_content: false,
        zeroed: false,
        changed_nul: false,
        changed_nonascii: false,
    })
}

#[test]
fn a_database_compared_with_itself_shows_no_changes() {
    let database = build(
        &[("a", b"1"), ("b/c", b"\0"), ("b/d/e", b"\xff"), ("b/d/f", b""), ("g", b"seven")],
        ALL,
    );
    let diff = database.diff(&database);
    assert_eq!(diff.summarize_diff(), DiffSummary::NoChanges);
    match diff {
        EntryDiff::Directory(_, counts) => {
            assert_eq!(counts, DirectoryDiff { added: 0, removed: 0, changed: 0, unchanged: 5 })
        }
        other => panic!("{:?}", other),
    }
    assert_eq!(database.show_diff(&database), (None, DiffSummary::NoChanges));

    let empty = Database::default();
    assert_eq!(empty.show_diff(&empty), (None, DiffSummary::NoChanges));
}

#[test]
fn a_self_comparison_has_the_shape_of_the_database() {
    let database = build(&[("a", b"1"), ("b/c", b"\0"), ("b/d/e", b"\xff"), ("b/d/f", b"")], ALL);
    let quiet = |unchanged: u64| DirectoryDiff { added: 0, removed: 0, changed: 0, unchanged };
    assert_eq!(
        database.diff(&database),
        EntryDiff::Directory(
            vec![
                (b"a".to_vec(), same_file()),
                (
                    b"b".to_vec(),
                    EntryDiff::Directory(
                        vec![
                            (b"c".to_vec(), same_file()),
                            (
                                b"d".to_vec(),
                                EntryDiff::Directory(
                                    vec![
                                        (b"e".to_vec(), same_file()),
                                        (b"f".to_vec(), same_file()),
                                    ],
                                    quiet(2),
                                ),
                            ),
                        ],
                        quiet(3),
                    ),
                ),
            ],
            quiet(4),
        )
    );
}

#[test]
fn one_more_file_anywhere_is_a_change_in_either_direction() {
    let files: [(&str, &[u8]); 3] = [("a", b"1"), ("b/c", b"\0"), ("b/d/e", b"\xff")];
    for extra in ["z", "b/z", "b/d/z", "b/y/z", "x/y/z"] {
        let before = build(&files, ALL);
        let mut after = build(&files, ALL);
        after.insert(&path(extra), Entry::File(compute_metrics(b"\0\xff", ALL)));
        assert_eq!(before.diff(&after).summarize_diff(), DiffSummary::Changes);
        assert_eq!(after.diff(&before).summarize_diff(), DiffSummary::Changes);
    }
}

#[test]
fn databases_alike_but_for_their_digests_show_no_changes() {
    let files: [(&str, &[u8]); 3] = [("a", b"1"), ("b/c", b"\0"), ("b/d/e", b"\xff")];
    for old in [NONE, SHA2, BLAKE2B, ALL] {
        for new in [NONE, SHA2, BLAKE2B, ALL] {
            let (before, after) = (build(&files, old), build(&files, new));
            assert_eq!(before.show_diff(&after), (None, DiffSummary::NoChanges));
        }
    }
}

#[test]
fn truncation_is_flagged_in_one_direction_only() {
    let full = Entry::File(sized(100));
    let empty = Entry::File(sized(0));
    assert_eq!(
        full.diff(&empty),
        EntryDiff::File(MetricsDiff {
            changed_content: true,
            zeroed: true,
            changed_nul: false,
            changed_nonascii: false,
        })
    );
    assert_eq!(
        empty.diff(&full),
        EntryDiff::File(MetricsDiff {
            changed_content: true,
            zeroed: false,
            changed_nul: false,
            changed_nonascii: false,
        })
    );
    assert_eq!(full.diff(&empty).summarize_diff(), DiffSummary::Suspicious);
    assert_eq!(empty.diff(&full).summarize_diff(), DiffSummary::Changes);
    assert_eq!(empty.diff(&empty), same_file());
}

#[test]
fn an_edit_of_equal_size_needs_a_shared_digest_to_be_seen() {
    let before: &[u8] = b"colour";
    let after: &[u8] = b"color!";
    for (old, new, seen) in [
        (SHA2, SHA2, true),
        (BLAKE2B, BLAKE2B, true),
        (ALL, SHA2, true),
        (BLAKE2B, ALL, true),
        (ALL, ALL, true),
        (SHA2, BLAKE2B, false),
        (BLAKE2B, SHA2, false),
        (NONE, ALL, false),
        (ALL, NONE, false),
        (NONE, NONE, false),
    ] {
        let diff = compute_metrics(before, old).diff(&compute_metrics(after, new));
        assert_eq!(
            diff,
            MetricsDiff {
                changed_content: seen,
                zeroed: false,
                changed_nul: false,
                changed_nonascii: false,
            }
        );
        let level = Entry::File(compute_metrics(before, old))
            .diff(&Entry::File(compute_metrics(after, new)))
            .summarize_diff();
        assert_eq!(level, if seen { DiffSummary::Changes } else { DiffSummary::NoChanges });
    }
}

#[test]
fn a_digest_on_one_side_only_says_nothing() {
    let with = Metrics {
        sha2: Some(HashSum(vec![1; 32])),
        blake2b: None,
        size: 4,
        nul: false,
        nonascii: false,
    };
    let without = sized(4);
    assert!(!with.diff(&without).changed_content);
    assert!(!without.diff(&with).changed_content);
    let other = Metrics { sha2: Some(HashSum(vec![2; 32])), ..sized(4) };
    assert!(with.diff(&other).changed_content);
    assert!(!with.diff(&with.clone()).changed_content);
}

#[test]
fn nul_and_nonascii_changes_are_flagged_in_both_directions() {
    let plain = Entry::File(compute_metrics(b"abcd", NONE));
    let nul = Entry::File(compute_metrics(b"ab\0d", NONE));
    let high = Entry::File(compute_metrics(b"ab\xe9d", NONE));
    assert_eq!(
        plain.diff(&nul),
        EntryDiff::File(MetricsDiff {
            changed_content: false,
            zeroed: false,
            changed_nul: true,
            changed_nonascii: false,
        })
    );
    assert_eq!(nul.diff(&plain), plain.diff(&nul));
    assert_eq!(
        plain.diff(&high),
        EntryDiff::File(MetricsDiff {
            changed_content: false,
            zeroed: false,
            changed_nul: false,
            changed_nonascii: true,
        })
    );
    assert_eq!(high.diff(&plain), plain.diff(&high));
    assert_eq!(plain.diff(&nul).summarize_diff(), DiffSummary::Suspicious);
    assert_eq!(high.diff(&plain).summarize_diff(), DiffSummary::Suspicious);
}

#[test]
fn a_file_against_a_directory_is_a_change_of_kind() {
    let before = build(&[("thing", b"a file")], SHA2);
    let after = build(&[("thing/inside", b"a file")], SHA2);
    let diff = before.diff(&after);
    assert_eq!(
        diff,
        EntryDiff::Directory(
            vec![(b"thing".to_vec(), EntryDiff::KindChanged)],
            DirectoryDiff { added: 0, removed: 0, changed: 1, unchanged: 0 },
        )
    );
    assert_eq!(diff.summarize_diff(), DiffSummary::Changes);
    assert_eq!(after.diff(&before).summarize_diff(), DiffSummary::Changes);
    assert_eq!(EntryDiff::KindChanged.summarize_diff(), DiffSummary::Changes);
}

#[test]
fn children_are_counted_by_what_became_of_them() {
    let before = build(
        &[
            ("gone.txt", b"1"),
            ("kept.txt", b"22"),
            ("edited.txt", b"333"),
            ("old-dir/a", b"x"),
            ("old-dir/b", b"y"),
            ("sub/kept", b"4444"),
            ("sub/gone", b"5"),
            ("sub/edited", b"66"),
        ],
        SHA2,
    );
    let after = build(
        &[
            ("kept.txt", b"22"),
            ("edited.txt", b"334"),
            ("new.txt", b"7"),
            ("new-dir/a", b"x"),
            ("sub/kept", b"4444"),
            ("sub/edited", b"6"),
            ("sub/new-1", b"8"),
            ("sub/new-2", b"9"),
        ],
        SHA2,
    );
    let diff = before.diff(&after);
    match &diff {
        EntryDiff::Directory(children, counts) => {
            // A directory that is gone or new counts once, whatever it holds.
            assert_eq!(
                *counts,
                DirectoryDiff { added: 4, removed: 3, changed: 2, unchanged: 2 }
            );
            let names: Vec<&[u8]> = children.iter().map(|(name, _)| name.as_slice()).collect();
            let expected: Vec<&[u8]> = vec![b"edited.txt", b"kept.txt", b"sub"];
            assert_eq!(names, expected);
            assert_eq!(children[1].1, same_file());
            match &children[2].1 {
                EntryDiff::Directory(below, counts) => {
                    assert_eq!(
                        *counts,
                        DirectoryDiff { added: 2, removed: 1, changed: 1, unchanged: 1 }
                    );
                    assert_eq!(below.len(), 2);
                    assert_eq!(below[0].0, b"edited".to_vec());
                    assert_eq!(below[1].0, b"kept".to_vec());
                }
                other => panic!("{:?}", other),
            }
        }
        other => panic!("{:?}", other),
    }
    assert_eq!(diff.summarize_diff(), DiffSummary::Changes);
}

#[test]
fn removal_and_addition_swap_with_the_direction() {
    let small = build(&[("a", b"1")], NONE);
    let large = build(&[("a", b"1"), ("b", b"2"), ("c/d", b"3")], NONE);
    match small.diff(&large) {
        EntryDiff::Directory(_, counts) => {
            assert_eq!(counts, DirectoryDiff { added: 2, removed: 0, changed: 0, unchanged: 1 })
        }
        other => panic!("{:?}", other),
    }
    match large.diff(&small) {
        EntryDiff::Directory(_, counts) => {
            assert_eq!(counts, DirectoryDiff { added: 0, removed: 2, changed: 0, unchanged: 1 })
        }
        other => panic!("{:?}", other),
    }
    match Database::default().diff(&large) {
        EntryDiff::Directory(children, counts) => {
            assert!(children.is_empty());
            assert_eq!(counts, DirectoryDiff { added: 3, removed: 0, changed: 0, unchanged: 0 })
        }
        other => panic!("{:?}", other),
    }
}

#[test]
fn a_suspicious_file_deep_down_makes_the_whole_suspicious() {
    let before = build(&[("a/b/c/d", b"text"), ("a/e", b"more"), ("f", b"fine")], ALL);
    let after = build(&[("a/b/c/d", b"te\0t"), ("a/e", b"more"), ("f", b"fine")], ALL);
    assert_eq!(before.diff(&after).summarize_diff(), DiffSummary::Suspicious);
    assert_eq!(after.diff(&before).summarize_diff(), DiffSummary::Suspicious);
}

#[test]
fn the_higher_level_wins() {
    let (none, changes, suspicious) =
        (DiffSummary::NoChanges, DiffSummary::Changes, DiffSummary::Suspicious);
    assert_eq!(none.meet(none), none);
    assert_eq!(none.meet(changes), changes);
    assert_eq!(changes.meet(none), changes);
    assert_eq!(changes.meet(changes), changes);
    assert_eq!(suspicious.meet(none), suspicious);
    assert_eq!(none.meet(suspicious), suspicious);
    assert_eq!(suspicious.meet(changes), suspicious);
    assert_eq!(changes.meet(suspicious), suspicious);
    assert_eq!(suspicious.meet(suspicious), suspicious);
}

#[test]
fn the_level_gives_the_exit_status() {
    assert_eq!(DiffSummary::NoChanges.exit_code(), 0);
    assert_eq!(DiffSummary::Changes.exit_code(), 1);
    assert_eq!(DiffSummary::Suspicious.exit_code(), 2);
}

#[test]
fn a_directory_is_summarised_from_its_counts_and_its_children() {
    let quiet = DirectoryDiff { added: 0, removed: 0, changed: 0, unchanged: 3 };
    assert_eq!(EntryDiff::Directory(vec![], quiet).summarize_diff(), DiffSummary::NoChanges);
    for counts in [
        DirectoryDiff { added: 1, ..quiet },
        DirectoryDiff { removed: 1, ..quiet },
        DirectoryDiff { changed: 1, ..quiet },
    ] {
        assert_eq!(EntryDiff::Directory(vec![], counts).summarize_diff(), DiffSummary::Changes);
    }
    let suspicious = EntryDiff::File(MetricsDiff {
        changed_content: false,
        zeroed: false,
        changed_nul: true,
        changed_nonascii: false,
    });
    let nested = EntryDiff::Directory(
        vec![
            (b"a".to_vec(), same_file()),
            (b"b".to_vec(), EntryDiff::Directory(vec![(b"c".to_vec(), suspicious)], quiet)),
            (b"d".to_vec(), EntryDiff::KindChanged),
        ],
        quiet,
    );
    assert_eq!(nested.summarize_diff(), DiffSummary::Suspicious);
}
