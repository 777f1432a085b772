use ranger::db::{backup_needed, backup_path, chosen_db_path};

#[test]
fn backup_only_for_existing_databases_with_pending_upgrades() {
    assert!(backup_needed(3, true));
    assert!(!backup_needed(0, true));
    assert!(!backup_needed(3, false));
}

#[test]
fn backup_path_appends_stamp() {
    assert_eq!(backup_path("/data/ranger.db", "2024-01-02T030405"), "/data/ranger.db.2024-01-02T030405.bak");
}

#[test]
fn db_path_flag_wins_over_environment() {
    assert_eq!(chosen_db_path(Some("a.db"), Some("b.db")), Some("a.db"));
    assert_eq!(chosen_db_path(None, Some("b.db")), Some("b.db"));
    assert_eq!(chosen_db_path::<&str>(None, None), None);
}
