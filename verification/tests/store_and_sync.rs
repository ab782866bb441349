use hours::report::{
    backup_report_path, commit_backup_step, report_path, should_commit_backup, StoredFile,
};
use hours::report::Report;
use hours::settings::{settings_path, Settings};
use hours::sync::{decide_sync, should_update_local_file_from_gist, trimmed_eq, SyncDecision};

fn stored(content: &str, mtime: i64) -> StoredFile {
    StoredFile {
        content: content.to_owned(),
        mtime,
    }
}

#[test]
fn test_should_commit_backup_cases() {
    assert!(should_commit_backup(None, Some(5)));
    assert!(should_commit_backup(Some(5), Some(6)));
    assert!(!should_commit_backup(Some(6), Some(5)));
    assert!(!should_commit_backup(Some(5), Some(5)));
    assert!(!should_commit_backup(Some(5), None));
    assert!(!should_commit_backup(None, None));
}

#[test]
fn test_commit_adopts_backup_when_primary_missing() {
    let (primary, backup) = commit_backup_step(None, Some(stored("saved work", 10)));
    assert_eq!(primary.unwrap().content, "saved work");
    assert!(backup.is_none());
}

#[test]
fn test_commit_prefers_newer_backup() {
    let (primary, backup) = commit_backup_step(
        Some(stored("stale", 10)),
        Some(stored("fresh", 11)),
    );
    assert_eq!(primary.unwrap().content, "fresh");
    assert!(backup.is_none());
}

#[test]
fn test_commit_keeps_primary_when_not_older() {
    let (primary, backup) = commit_backup_step(
        Some(stored("current", 11)),
        Some(stored("old backup", 10)),
    );
    assert_eq!(primary.unwrap().content, "current");
    assert_eq!(backup.unwrap().content, "old backup");

    let (primary, backup) = commit_backup_step(
        Some(stored("current", 10)),
        Some(stored("same age", 10)),
    );
    assert_eq!(primary.unwrap().content, "current");
    assert_eq!(backup.unwrap().content, "same age");
}

#[test]
fn test_commit_no_backup_no_change() {
    let (primary, backup) = commit_backup_step(Some(stored("current", 10)), None);
    assert_eq!(primary.unwrap().content, "current");
    assert!(backup.is_none());
}

#[test]
fn test_trimmed_eq() {
    assert!(trimmed_eq("a b\n", " a b"));
    assert!(trimmed_eq("", "  \n\t"));
    assert!(!trimmed_eq("a", "b"));
    assert!(!trimmed_eq("a b", "a  b"));
}

#[test]
fn test_sync_no_action_when_trimmed_equal() {
    let local = Report("01.01.2021 01:00:00\n".to_owned());
    let remote = Report("01.01.2021 01:00:00".to_owned());
    assert_eq!(
        decide_sync(&local, Some(100), &remote, 200),
        SyncDecision::AlreadyConsistent
    );
}

#[test]
fn test_sync_remote_wins_when_local_missing_or_older() {
    let local = Report("".to_owned());
    let remote = Report("01.01.2021 01:00:00\n".to_owned());
    assert_eq!(
        decide_sync(&local, None, &remote, 200),
        SyncDecision::TakeRemote
    );

    let local = Report("02.01.2021 01:00:00\n".to_owned());
    assert_eq!(
        decide_sync(&local, Some(100), &remote, 200),
        SyncDecision::TakeRemote
    );
}

#[test]
fn test_sync_local_wins_when_not_older() {
    let local = Report("02.01.2021 01:00:00\n".to_owned());
    let remote = Report("01.01.2021 01:00:00\n".to_owned());
    assert_eq!(
        decide_sync(&local, Some(200), &remote, 200),
        SyncDecision::PushLocal
    );
    assert_eq!(
        decide_sync(&local, Some(300), &remote, 200),
        SyncDecision::PushLocal
    );
}

#[test]
fn test_should_update_local_file_from_gist() {
    assert!(should_update_local_file_from_gist(None, 100));
    assert!(should_update_local_file_from_gist(Some(99), 100));
    assert!(!should_update_local_file_from_gist(Some(100), 100));
    assert!(!should_update_local_file_from_gist(Some(101), 100));
}

#[test]
fn test_paths_under_home() {
    assert_eq!(report_path("/home/someone"), "/home/someone/hours.txt");
    assert_eq!(
        backup_report_path("/home/someone"),
        "/home/someone/hours.bak.txt"
    );
    assert_eq!(
        settings_path("/home/someone"),
        "/home/someone/.config/hours.yaml"
    );
}

#[test]
fn test_settings_holds_values() {
    let settings = Settings::new("key".to_owned(), "id".to_owned());
    assert_eq!(settings.api_key, "key");
    assert_eq!(settings.gist_id, "id");
}
