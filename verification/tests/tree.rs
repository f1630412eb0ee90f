use integrity_checker::database::{
    entry_key, Database, Directory, Entry, Features, Metrics, ENTRY_LIMIT,
};
use integrity_checker::error::Error;
use integrity_checker::metrics::compute_metrics;

const NONE: Features = Features { sha2: false, blake2b: false };

fn path(text: &str) -> Vec<Vec<u8>> {
    text.split('/').map(|component| component.as_bytes().to_vec()).collect()
}

fn file(content: &[u8]) -> Entry {
    Entry::File(compute_metrics(content, NONE))
}

fn sized(size: u64) -> Metrics {
    Metrics { sha2: None, blake2b: None, size, nul: false, nonascii: false }
}

#[test]
fn an_empty_database_is_an_empty_directory() {
    let database = Database::default();
    assert_eq!(database.0, Entry::Directory(Directory::new()));
    assert_eq!(database.0, Entry::default());
    assert_eq!(database.0.count_entries(), Some(0));
    assert_eq!(database.lookup(&path("a")), None);
}

#[test]
fn what_was_inserted_is_found() {
    let mut database = Database::default();
    database.insert(&path("a.txt"), file(b"one"));
    database.insert(&path("docs/b.txt"), file(b"three"));
    database.insert(&path("docs/deep/c.txt"), file(b"fives"));

    assert_eq!(database.lookup(&path("a.txt")), Some(&Entry::File(sized(3))));
    assert_eq!(database.lookup(&path("docs/b.txt")), Some(&Entry::File(sized(5))));
    assert_eq!(database.lookup(&path("docs/deep/c.txt")), Some(&Entry::File(sized(5))));
    assert_eq!(database.lookup(&path("b.txt")), None);
    assert_eq!(database.lookup(&path("docs/a.txt")), None);
    assert_eq!(database.lookup(&path("docs/deep/c.txt/more")), None);
    assert_eq!(database.lookup(&path("a.txt/below")), None);
}

#[test]
fn directories_on_the_way_are_made() {
    let mut database = Database::default();
    database.insert(&path("x/y/z"), file(b""));
    match database.lookup(&path("x")) {
        Some(Entry::Directory(directory)) => {
            assert_eq!(directory.len(), 1);
            assert_eq!(directory.name_at(0), &b"y".to_vec());
        }
        other => panic!("{:?}", other),
    }
    match database.lookup(&path("x/y")) {
        Some(Entry::Directory(directory)) => {
            assert_eq!(directory.len(), 1);
            assert_eq!(directory.name_at(0), &b"z".to_vec());
            assert_eq!(directory.entry_at(0), &Entry::File(sized(0)));
        }
        other => panic!("{:?}", other),
    }
    assert_eq!(database.0.count_entries(), Some(3));
}

#[test]
fn the_empty_path_is_the_entry_itself() {
    let mut database = Database::default();
    database.insert(&path("a"), file(b"1"));
    let root: Vec<Vec<u8>> = Vec::new();
    assert_eq!(database.lookup(&root), Some(&database.0));
    assert!(!database.can_insert(&root));
}

#[test]
fn children_are_kept_in_order_of_their_names() {
    let mut database = Database::default();
    for name in ["pear", "apple", "fig", "apples", "Zebra", "app"] {
        database.insert(&path(name), file(name.as_bytes()));
    }
    match &database.0 {
        Entry::Directory(directory) => {
            let names: Vec<&[u8]> =
                (0..directory.len()).map(|i| directory.name_at(i).as_slice()).collect();
            let expected: Vec<&[u8]> =
                vec![b"Zebra", b"app", b"apple", b"apples", b"fig", b"pear"];
            assert_eq!(names, expected);
            assert_eq!(directory.entry_at(2), &Entry::File(sized(5)));
        }
        other => panic!("{:?}", other),
    }
}

#[test]
fn the_order_of_insertion_does_not_show() {
    let files: [(&str, &[u8]); 5] = [
        ("b/2", b"two"),
        ("a", b"one"),
        ("b/1/x", b"three"),
        ("c", b"four"),
        ("b/1/y", b"five"),
    ];
    let mut forward = Database::default();
    for (name, content) in files.iter() {
        forward.insert(&path(name), file(content));
    }
    let mut backward = Database::default();
    for (name, content) in files.iter().rev() {
        backward.insert(&path(name), file(content));
    }
    assert_eq!(forward, backward);
    assert_eq!(forward.clone(), backward);
    assert_eq!(forward.0.count_entries(), Some(7));
}

#[test]
fn a_path_is_free_until_it_is_taken() {
    let mut database = Database::default();
    assert!(database.can_insert(&path("a/b")));
    database.insert(&path("a/b"), file(b""));
    assert!(!database.can_insert(&path("a/b")));
    assert!(!database.can_insert(&path("a")));
    assert!(!database.can_insert(&path("a/b/c")));
    assert!(database.can_insert(&path("a/c")));
    assert!(database.can_insert(&path("b")));
    assert!(database.can_insert(&path("a/c/d/e")));
    assert!(!Entry::File(sized(1)).can_insert(&path("a")));
}

#[test]
fn a_directory_answers_like_a_map() {
    let mut directory = Directory::new();
    assert_eq!(directory.len(), 0);
    assert_eq!(directory.insert(b"b".to_vec(), file(b"22")), None);
    assert_eq!(directory.insert(b"a".to_vec(), file(b"1")), None);
    assert_eq!(directory.insert(b"c".to_vec(), file(b"333")), None);
    assert_eq!(directory.len(), 3);
    assert_eq!(directory.get(b"a"), Some(&Entry::File(sized(1))));
    assert_eq!(directory.get(b"b"), Some(&Entry::File(sized(2))));
    assert_eq!(directory.get(b"c"), Some(&Entry::File(sized(3))));
    assert_eq!(directory.get(b"d"), None);
    assert_eq!(directory.get(b""), None);

    assert_eq!(directory.insert(b"b".to_vec(), file(b"4444")), Some(Entry::File(sized(2))));
    assert_eq!(directory.len(), 3);
    assert_eq!(directory.get(b"b"), Some(&Entry::File(sized(4))));
    assert_eq!(directory.name_at(1), &b"b".to_vec());
}

#[test]
fn a_file_below_the_root_is_named_by_the_rest_of_its_path() {
    assert_eq!(entry_key(&path("srv/data"), &path("srv/data/a/b.txt")).unwrap(), path("a/b.txt"));
    assert_eq!(entry_key(&path("srv"), &path("srv/x")).unwrap(), path("x"));
    let nothing: Vec<Vec<u8>> = Vec::new();
    assert_eq!(entry_key(&nothing, &path("a/b")).unwrap(), path("a/b"));
}

#[test]
fn a_root_that_is_a_file_is_named_by_its_last_component() {
    assert_eq!(entry_key(&path("srv/data/a.txt"), &path("srv/data/a.txt")).unwrap(), path("a.txt"));
    assert_eq!(entry_key(&path("a.txt"), &path("a.txt")).unwrap(), path("a.txt"));
}

#[test]
fn a_path_outside_the_root_has_no_name() {
    assert!(matches!(entry_key(&path("srv/data"), &path("srv/other/a")), Err(Error::StripPrefix)));
    assert!(matches!(entry_key(&path("srv/data/deep"), &path("srv/data")), Err(Error::StripPrefix)));
    assert!(matches!(entry_key(&path("srv/dat"), &path("srv/data/a")), Err(Error::StripPrefix)));
}

#[test]
fn the_limit_leaves_room_to_count_two_databases() {
    assert_eq!(ENTRY_LIMIT, u64::MAX / 2);
    assert!(ENTRY_LIMIT.checked_add(ENTRY_LIMIT).is_some());
}

#[test]
fn entries_are_counted_at_every_depth() {
    let mut database = Database::default();
    database.insert(&path("a"), file(b""));
    assert_eq!(database.0.count_entries(), Some(1));
    database.insert(&path("d/e/f"), file(b""));
    assert_eq!(database.0.count_entries(), Some(4));
    database.insert(&path("d/e/g"), file(b""));
    assert_eq!(database.0.count_entries(), Some(5));
    assert_eq!(file(b"abc").count_entries(), Some(0));
}
