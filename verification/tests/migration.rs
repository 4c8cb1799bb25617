use mathtutor::migrate::MigrationReport;

#[test]
fn a_path_already_present_is_skipped_with_its_log() {
    let mut r = MigrationReport::default();
    assert!(r.note_path(true));
    r.note_event();
    r.note_event();
    assert!(!r.note_path(false));
    assert_eq!((r.paths_imported, r.paths_skipped, r.events_imported), (1, 1, 2));
    assert_eq!(
        r.summary("/s"),
        "migrated 1 path(s) (1 already present), 2 event(s), overlay: 0 lesson(s) / 0 quiz(zes) / 0 tombstone(s) [from /s]"
    );
}
