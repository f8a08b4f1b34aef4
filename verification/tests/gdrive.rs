use aanote::clock::{fine_stamp, parse_rfc3339_to_ms};
use aanote::conflict::{conflict_names, Rescue, Side};
use aanote::turns::{gdrive_reset_sync, gdrive_sync, give_back, SyncState};
use aanote::index::{load_index, SyncFileEntry, SyncMeta};
use aanote::pathmap::PathMap;
use aanote::plan::mtime_differs;
use aanote::remote::DriveFile;
use aanote::steps::{Answer, FileStep};
use aanote::sync::{Action, Reply, SyncRun};
use aanote::url::url_decode;
use aanote::write::{AtomicWrite, Purpose, WriteStep};
use std::collections::BTreeMap;
use std::sync::Mutex;

#[test]
fn parse_rfc3339_known_value() {
    // 2024-01-01T00:00:00Z = 1704067200000 ms
    assert_eq!(parse_rfc3339_to_ms("2024-01-01T00:00:00Z"), 1704067200000);
}

#[test]
fn parse_rfc3339_with_offset() {
    // 2024-01-01T01:00:00+01:00 == same instant as above
    assert_eq!(parse_rfc3339_to_ms("2024-01-01T01:00:00+01:00"), 1704067200000);
}

#[test]
fn parse_rfc3339_garbage_returns_zero() {
    // Malformed input returns 0 (documented behavior, not a panic).
    assert_eq!(parse_rfc3339_to_ms("not a date"), 0);
    assert_eq!(parse_rfc3339_to_ms(""), 0);
}

#[test]
fn url_decode_basic() {
    assert_eq!(url_decode("hello"), "hello");
    assert_eq!(url_decode("a+b"), "a b");
    assert_eq!(url_decode("%2F"), "/");
    assert_eq!(url_decode("%2f"), "/");
    assert_eq!(url_decode("4%2F0AXX"), "4/0AXX");
    // Truncated percent escape passes through unchanged (no panic).
    assert_eq!(url_decode("%2"), "%2");
}

/// Runs a write on files in memory.
fn run_write(files: &mut BTreeMap<String, String>, purpose: Purpose, path: &str, content: &str) {
    let mut w = AtomicWrite::begin(purpose, path);
    loop {
        match w.pending() {
            WriteStep::Write { tmp } => {
                files.insert(tmp, content.to_string());
            }
            WriteStep::Rename { tmp, path } => {
                let c = files.remove(&tmp).unwrap();
                files.insert(path, c);
            }
            WriteStep::Finish { outcome } => {
                outcome.unwrap();
                return;
            }
            _ => {}
        }
        w.advance(Ok(()));
    }
}

#[test]
fn atomic_write_index_roundtrip() {
    let mut files = BTreeMap::new();
    run_write(&mut files, Purpose::Index, "/notes/.sync.json", "{\"files\":{}}");
    assert_eq!(files["/notes/.sync.json"], "{\"files\":{}}");
    // No temp file left behind.
    assert!(!files.contains_key("/notes/.aanote-sync-tmp"));
    assert_eq!(files.len(), 1);
}

#[test]
fn atomic_write_bytes_replaces_content() {
    let mut files = BTreeMap::new();
    run_write(&mut files, Purpose::Download, "/notes/dl.md", "first");
    run_write(&mut files, Purpose::Download, "/notes/dl.md", "second");
    assert_eq!(files["/notes/dl.md"], "second");
    assert_eq!(files.len(), 1);
}

/// Saves a conflict copy, and returns the name it was given.
fn rescue(files: &mut BTreeMap<String, String>, mut r: Rescue) -> String {
    loop {
        let answer = match r.pending() {
            FileStep::Probe { path } => Answer::Exists(files.contains_key(&path)),
            FileStep::Copy { from, to } => {
                assert!(!files.contains_key(&to), "returned path should not already exist");
                let c = files[&from].clone();
                files.insert(to, c);
                Answer::Outcome(Ok(()))
            }
            FileStep::Finish { outcome } => return outcome.unwrap(),
            _ => unreachable!(),
        };
        r.advance(answer);
    }
}

#[test]
fn save_local_conflict_copy_creates_file() {
    let mut files: BTreeMap<String, String> = BTreeMap::new();
    files.insert("/notes/note.md".to_string(), "local edits".to_string());
    rescue(&mut files, Rescue::begin(Side::Local, "/notes", "note.md"));
    // A conflict copy exists alongside the original.
    let mut found = false;
    for (path, content) in &files {
        let name = path.strip_prefix("/notes/").unwrap();
        if name.starts_with("note (local conflict ") && name.ends_with(".md") {
            found = true;
            assert_eq!(content, "local edits");
        }
    }
    assert!(found, "expected a conflict copy to be created");
    // Original untouched.
    assert_eq!(files["/notes/note.md"], "local edits");
}

#[test]
fn sync_state_locking_baseline() {
    // Sanity: the shared state struct used for serialization works.
    let state = SyncState { in_progress: Mutex::new(false) };
    assert_eq!(*state.in_progress.lock().unwrap(), false);
    *state.in_progress.lock().unwrap() = true;
    assert_eq!(*state.in_progress.lock().unwrap(), true);
}

#[test]
fn only_one_sync_runs_at_a_time() {
    let state = SyncState { in_progress: Mutex::new(false) };
    assert!(gdrive_sync(&mut state.in_progress.lock().unwrap()).is_ok());
    let skipped = gdrive_sync(&mut state.in_progress.lock().unwrap()).unwrap_err();
    assert_eq!(skipped.summary, "Sync already in progress");
    assert_eq!((skipped.uploaded, skipped.downloaded, skipped.conflicts), (0, 0, 0));
    assert_eq!(skipped.chars_synced, 0);
    assert_eq!(
        gdrive_reset_sync(&mut state.in_progress.lock().unwrap()),
        Err("A sync is already in progress; wait for it to finish.".to_string())
    );
    give_back(&mut state.in_progress.lock().unwrap());
    assert_eq!(gdrive_reset_sync(&mut state.in_progress.lock().unwrap()), Ok(()));
    assert!(gdrive_sync(&mut state.in_progress.lock().unwrap()).is_err());
}

#[test]
fn mtime_differs_tolerance_absorbs_jitter() {
    // Equal → no change.
    assert!(!mtime_differs(1000, 1000));
    // Within 1000ms tolerance → considered unchanged (FS resolution, Drive
    // eventual consistency).
    assert!(!mtime_differs(1000, 1800));
    assert!(!mtime_differs(1800, 1000));
    // Beyond tolerance → changed.
    assert!(mtime_differs(1000, 2500));
    assert!(mtime_differs(2500, 1000));
    // Just at the edge.
    assert!(!mtime_differs(1000, 2000));
    assert!(mtime_differs(1000, 2001));
    assert!(mtime_differs(u64::MAX, 0));
}

#[test]
fn unique_conflict_path_avoids_collision() {
    let ms = 1_704_067_200_123;
    assert_eq!(fine_stamp(ms), "20240101-000000123");
    let mut names = conflict_names("/notes", "note", Side::Local, ms);
    let a = names.name();
    assert_eq!(a, "/notes/note (local conflict 20240101-000000123).md");
    // A second conflict in the same instant must NOT pick the same name.
    names.next();
    let b = names.name();
    assert_ne!(a, b, "second conflict must get a unique name");
    assert_eq!(b, "/notes/note (local conflict 20240101-000000123-2).md");
    names.next();
    assert_eq!(names.name(), "/notes/note (local conflict 20240101-000000123-3).md");

    let mut files: BTreeMap<String, String> = BTreeMap::new();
    files.insert("/notes/note.md".to_string(), "v1".to_string());
    let first = rescue(&mut files, Rescue::begin_at(Side::Local, "/notes", "note.md", ms));
    assert_eq!(first, a);
    let taken = files.clone();
    let second = rescue(&mut files, Rescue::begin_at(Side::Local, "/notes", "note.md", ms));
    assert_ne!(first, second, "second conflict must get a unique name");
    assert!(!taken.contains_key(&second), "returned path should not already exist");
    assert_eq!(second, b);
    assert_eq!(files.len(), 3);
}

fn entry(id: &str, local: u64, remote: u64) -> SyncFileEntry {
    SyncFileEntry { id: id.to_string(), local_mtime_ms: local, remote_mtime_ms: remote }
}

fn drive_file(id: &str, name: &str, modified: &str) -> DriveFile {
    DriveFile {
        id: id.to_string(),
        name: name.to_string(),
        modified_time: Some(modified.to_string()),
        mime_type: Some("text/markdown".to_string()),
    }
}

/// Regression test for data loss in the clean-up: a path created during a sync
/// (a download) is excluded from the "deleted locally" check, so it is NOT
/// removed from the index or deleted from remote.
#[test]
fn case_c_skips_paths_touched_during_sync() {
    // The index before the sync knows "existing.md" alone.
    let mut index = SyncMeta::new();
    index.files.insert("existing.md".to_string(), entry("id-existing", 1, 1));

    // Drive also has "remote-only.md", which will be downloaded.
    let listed = vec![
        drive_file("id-existing", "existing.md", "1970-01-01T00:00:00.001Z"),
        drive_file("id-remote", "remote-only.md", "1970-01-01T00:00:00.002Z"),
    ];
    let mut run = SyncRun::begin(index, &listed);
    let mut downloads = Vec::new();
    loop {
        let reply = match run.pending() {
            // Listing of local files taken at the START of sync: does NOT
            // include "remote-only.md".
            Action::ScanNotes => {
                let mut notes: PathMap<u64> = PathMap::new();
                notes.insert("existing.md".to_string(), 1);
                Reply::Scanned { notes }
            }
            Action::Download { path, id } => {
                downloads.push((path, id));
                Reply::Downloaded { chars: 5 }
            }
            Action::SetMtime { .. } => Reply::Done,
            Action::SaveIndex => Reply::Done,
            Action::Finish { outcome } => {
                assert_eq!(outcome.unwrap().downloaded, 1);
                break;
            }
            other => panic!("unexpected {:?}", other),
        };
        assert!(run.accepts(&reply));
        run.advance(reply);
    }
    assert_eq!(downloads, vec![("remote-only.md".to_string(), "id-remote".to_string())]);

    // The downloaded file MUST survive.
    let files = &run.index().files;
    assert!(
        files.contains_key("remote-only.md"),
        "BUG: Case C deleted a file downloaded during the same sync"
    );
    assert_eq!(files.len(), 2, "both files should remain");
    let e = files.get("remote-only.md").unwrap();
    assert_eq!((e.id.as_str(), e.local_mtime_ms, e.remote_mtime_ms), ("id-remote", 2, 2));
}

#[test]
fn a_missing_index_counts_as_empty() {
    assert_eq!(load_index(None).files.len(), 0);
    let mut index = SyncMeta::new();
    index.files.insert("a.md".to_string(), entry("1", 2, 3));
    let loaded = load_index(Some(index));
    assert_eq!(loaded.files.len(), 1);
    assert_eq!(loaded.files.get("a.md").unwrap().remote_mtime_ms, 3);
}
