use integrity_checker::database::{Database, DiffSummary, Entry, Features};
use integrity_checker::metrics::compute_metrics;

fn path(text: &str) -> Vec<Vec<u8>> {
    text.split('/').map(|component| component.as_bytes().to_vec()).collect()
}

fn build(files: &[(&str, &[u8])]) -> Database {
    let mut database = Database::default();
    for (name, content) in files {
        let key = path(name);
        assert!(database.can_insert(&key));
        database.insert(&key, Entry::File(compute_metrics(content, Features::default())));
    }
    database
}

fn check(before: &[(&str, &[u8])], after: &[(&str, &[u8])]) -> DiffSummary {
    let before_db = build(before);
    let after_db = build(after);
    before_db.show_diff(&after_db).1
}

const MAIN: (&str, &[u8]) = ("src/main.c", b"int main(void) { return 0; }\n");
const MAIN_EDITED: (&str, &[u8]) = ("src/main.c", b"int main(void) { return 1; }\n/* edited */\n");
const MAIN_EMPTY: (&str, &[u8]) = ("src/main.c", b"");
const MAIN_WITH_NUL: (&str, &[u8]) = ("src/main.c", b"int main(void) { return 0; }\0\n");
const MAIN_WITH_NONASCII: (&str, &[u8]) = ("src/main.c", b"int main(void) { return 0; } // \xe2\x9c\x93\n");
const HEADER: (&str, &[u8]) = ("src/main.h", b"int main(void);\n");
const IMAGE: (&str, &[u8]) = ("logo.png", b"\x89PNG\r\n\x1a\n\x00\x00\x00\rIHDR");
const IMAGE_EDITED: (&str, &[u8]) = ("logo.png", b"\x89PNG\r\n\x1a\n\x00\x00\x00\rIHDR\x00\x00\x01\x00");

#[test]
fn check_no_changes() {
    let result = check(&[MAIN, IMAGE], &[MAIN, IMAGE]);
    assert_eq!(result, DiffSummary::NoChanges);
}

#[test]
fn check_changes_edit() {
    let result = check(&[MAIN, IMAGE], &[MAIN_EDITED, IMAGE]);
    assert_eq!(result, DiffSummary::Changes);
}

#[test]
fn check_changes_new() {
    let result = check(&[MAIN], &[MAIN, HEADER]);
    assert_eq!(result, DiffSummary::Changes);
}

#[test]
fn check_changes_edit_bin() {
    let result = check(&[MAIN, IMAGE], &[MAIN, IMAGE_EDITED]);
    assert_eq!(result, DiffSummary::Changes);
}

#[test]
fn check_changes_new_bin() {
    let result = check(&[MAIN], &[MAIN, IMAGE]);
    assert_eq!(result, DiffSummary::Changes);
}

#[test]
fn check_changes_delete() {
    let result = check(&[MAIN, HEADER], &[MAIN]);
    assert_eq!(result, DiffSummary::Changes);
}

#[test]
fn check_suspicious_truncate() {
    let result = check(&[MAIN, IMAGE], &[MAIN_EMPTY, IMAGE]);
    assert_eq!(result, DiffSummary::Suspicious);
}

#[test]
fn check_suspicious_nul() {
    let result = check(&[MAIN, IMAGE], &[MAIN_WITH_NUL, IMAGE]);
    assert_eq!(result, DiffSummary::Suspicious);
}

#[test]
fn check_suspicious_nonascii() {
    let result = check(&[MAIN, IMAGE], &[MAIN_WITH_NONASCII, IMAGE]);
    assert_eq!(result, DiffSummary::Suspicious);
}
