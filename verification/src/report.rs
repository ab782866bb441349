//! The report: the serialized text form of a timesheet, the unit of local
//! and remote storage, and the crash-safe backup commit policy that decides,
//! by modification times, whether a backup supersedes the primary file.

use vstd::prelude::*;
use vstd::string::StringExecFns;

verus! {

/// Serialized timesheet text.
#[derive(Debug, Clone)]
pub struct Report(pub String);

/// A stored copy of a report: its text and its modification time, as an
/// opaque ordered timestamp (seconds, for instance).
#[derive(Debug, Clone)]
pub struct StoredFile {
    pub content: String,
    pub mtime: i64,
}

pub open spec fn stamp_of(f: Option<StoredFile>) -> Option<i64> {
    match f {
        Some(sf) => Some(sf.mtime),
        None => None,
    }
}

/// The backup supersedes the primary exactly when the primary is missing
/// while a backup exists, or both exist and the backup is strictly newer.
pub open spec fn commit_needed(primary_mtime: Option<i64>, backup_mtime: Option<i64>) -> bool {
    match (primary_mtime, backup_mtime) {
        (None, Some(_)) => true,
        (Some(pm), Some(bm)) => bm > pm,
        _ => false,
    }
}

pub fn should_commit_backup(primary_mtime: Option<i64>, backup_mtime: Option<i64>) -> (r: bool)
    ensures
        r == commit_needed(primary_mtime, backup_mtime),
{
    match (primary_mtime, backup_mtime) {
        (None, Some(_)) => true,
        (Some(pm), Some(bm)) => bm > pm,
        _ => false,
    }
}

/// The state of the two stored files after a commit: when the backup
/// supersedes the primary it is renamed over it (so the backup slot is then
/// empty); otherwise nothing moves.
pub open spec fn commit_result(primary: Option<StoredFile>, backup: Option<StoredFile>) -> (
    Option<StoredFile>,
    Option<StoredFile>,
) {
    if commit_needed(stamp_of(primary), stamp_of(backup)) {
        (backup, None)
    } else {
        (primary, backup)
    }
}

/// Applies the commit policy to the pair of stored files.
pub fn commit_backup_step(primary: Option<StoredFile>, backup: Option<StoredFile>) -> (r: (
    Option<StoredFile>,
    Option<StoredFile>,
))
    ensures
        r == commit_result(primary, backup),
{
    let commit = match (&primary, &backup) {
        (None, Some(_)) => true,
        (Some(p), Some(b)) => b.mtime > p.mtime,
        _ => false,
    };
    if commit {
        (backup, None)
    } else {
        (primary, backup)
    }
}

/// Commit policy: a missing primary adopts an existing backup; a strictly
/// newer backup supersedes the primary; otherwise the primary is unchanged
/// and the backup stays where it was.
pub proof fn lemma_commit_policy(primary: Option<StoredFile>, backup: Option<StoredFile>)
    ensures
        (primary is None && backup is Some) ==> commit_result(primary, backup)
            == (backup, None::<StoredFile>),
        (primary is Some && backup is Some && backup.unwrap().mtime > primary.unwrap().mtime)
            ==> commit_result(primary, backup) == (backup, None::<StoredFile>),
        (primary is Some && backup is Some && primary.unwrap().mtime >= backup.unwrap().mtime)
            ==> commit_result(primary, backup) == (primary, backup),
        backup is None ==> commit_result(primary, backup) == (primary, backup),
{
}

/// Path of the primary report file under the given home directory.
pub fn report_path(home: &str) -> (r: String)
    ensures
        r@ == home@ + "/hours.txt"@,
{
    let mut p = String::new();
    p.append(home);
    p.append("/hours.txt");
    p
}

/// Path of the shadow backup file under the given home directory.
pub fn backup_report_path(home: &str) -> (r: String)
    ensures
        r@ == home@ + "/hours.bak.txt"@,
{
    let mut p = String::new();
    p.append(home);
    p.append("/hours.bak.txt");
    p
}

} // verus!
