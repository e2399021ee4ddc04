use edge_bookmarks_organizer::backup::{
    backup_action, backup_file_name, backup_prefix, backups_to_prune, select_backups, BackupAction,
};

fn names(v: &[&str]) -> Vec<String> {
    v.iter().map(|s| s.to_string()).collect()
}

#[test]
fn backup_names() {
    assert_eq!(backup_file_name(Some("Bookmarks"), "20240102_030405"), "Bookmarks.backup_20240102_030405");
    assert_eq!(backup_file_name(None, "t"), "Bookmarks.backup_t");
    assert_eq!(backup_prefix(Some("B2")), "B2.backup_");
}

#[test]
fn selecting_backups_sorts_oldest_first() {
    let found = select_backups(
        Some("Bookmarks"),
        &names(&[
            "Bookmarks.backup_20240301_000000",
            "Bookmarks",
            "Other.backup_20240101_000000",
            "Bookmarks.backup_20240101_000000",
            "Bookmarks.bak",
        ]),
    );
    assert_eq!(found, names(&["Bookmarks.backup_20240101_000000", "Bookmarks.backup_20240301_000000"]));
}

#[test]
fn pruning_keeps_the_newest() {
    let all = names(&["b.backup_1", "b.backup_2", "b.backup_3", "b.backup_4"]);
    assert_eq!(backups_to_prune(all.clone(), 1), names(&["b.backup_1", "b.backup_2", "b.backup_3"]));
    assert_eq!(backups_to_prune(all.clone(), 4), Vec::<String>::new());
    assert_eq!(backups_to_prune(all.clone(), 10), Vec::<String>::new());
    assert_eq!(backups_to_prune(all, 0).len(), 4);
}

#[test]
fn backup_command_precedence() {
    assert!(matches!(backup_action(true, Some("x".to_string()), Some(3)), BackupAction::List));
    assert!(matches!(backup_action(false, Some("x".to_string()), Some(3)), BackupAction::Restore(ref p) if p == "x"));
    assert!(matches!(backup_action(false, None, Some(3)), BackupAction::Prune(3)));
    assert!(matches!(backup_action(false, None, None), BackupAction::Create));
}
