use aanote::index::{SyncFileEntry, SyncMeta};
use aanote::listing::Entry;
use aanote::local::scan_local_dir;
use aanote::pathmap::PathMap;
use aanote::plan::{decide, find_counterpart, Plan};
use aanote::remote::{dedup_files, DriveFile};
use aanote::sync::{summary, Action, Reply, SyncResult, SyncRun};
use std::collections::BTreeMap;

const T0: u64 = 1_704_067_200_000;

/// `secs` seconds after the start of 2024, as Drive writes it.
fn time(secs: u64) -> String {
    format!("2024-01-01T00:{:02}:{:02}Z", secs / 60, secs % 60)
}

fn file(id: &str, name: &str, secs: u64) -> DriveFile {
    DriveFile {
        id: id.to_string(),
        name: name.to_string(),
        modified_time: Some(time(secs)),
        mime_type: Some("text/markdown".to_string()),
    }
}

fn folder(id: &str, name: &str) -> DriveFile {
    DriveFile {
        id: id.to_string(),
        name: name.to_string(),
        modified_time: None,
        mime_type: Some("application/vnd.google-apps.folder".to_string()),
    }
}

fn index(entries: &[(&str, &str, u64, u64)]) -> SyncMeta {
    let mut m = SyncMeta::new();
    for (path, id, local, remote) in entries {
        m.files.insert(
            path.to_string(),
            SyncFileEntry {
                id: id.to_string(),
                local_mtime_ms: T0 + local * 1000,
                remote_mtime_ms: T0 + remote * 1000,
            },
        );
    }
    m
}

fn entries(m: &SyncMeta) -> BTreeMap<String, (String, u64, u64)> {
    (0..m.files.len())
        .map(|i| {
            let e = m.files.value_at(i);
            let secs = |ms: u64| (ms - T0) / 1000;
            (
                m.files.key_at(i).clone(),
                (e.id.clone(), secs(e.local_mtime_ms), secs(e.remote_mtime_ms)),
            )
        })
        .collect()
}

struct World {
    notes: Vec<(&'static str, u64)>,
    /// The paths at which there are files when renames are looked up.
    present: Vec<&'static str>,
    /// The path whose transfer fails.
    failing: Option<&'static str>,
    /// Conflict copies cannot be saved.
    no_copies: bool,
}

/// Runs a sync; every upload is answered with the time 50 s.
fn run(m: SyncMeta, listed: Vec<DriveFile>, world: World) -> (Vec<String>, SyncMeta, Result<SyncResult, String>) {
    let mut run = SyncRun::begin(m, &listed);
    let mut log = Vec::new();
    let fails = |path: &str| world.failing == Some(path);
    let copied = || {
        if world.no_copies {
            Reply::Failed { error: "no copy".to_string() }
        } else {
            Reply::Done
        }
    };
    loop {
        let reply = match run.pending() {
            Action::DeleteRemote { id } => {
                log.push(format!("delete {}", id));
                Reply::Done
            }
            Action::ScanNotes => {
                let mut notes: PathMap<u64> = PathMap::new();
                for (path, secs) in &world.notes {
                    notes.insert(path.to_string(), T0 + secs * 1000);
                }
                Reply::Scanned { notes }
            }
            Action::CopyRemote { path, id } => {
                log.push(format!("copy remote {} {}", path, id));
                copied()
            }
            Action::CopyLocal { path } => {
                log.push(format!("copy local {}", path));
                copied()
            }
            Action::Upload { path } => {
                log.push(format!("upload {}", path));
                if fails(&path) {
                    Reply::Failed { error: "offline".to_string() }
                } else {
                    Reply::Uploaded { id: format!("new-{}", path), ms: T0 + 50_000, chars: 10 }
                }
            }
            Action::Update { path, id } => {
                log.push(format!("update {} {}", path, id));
                if fails(&path) {
                    Reply::Failed { error: "offline".to_string() }
                } else {
                    Reply::Updated { ms: T0 + 50_000, chars: 10 }
                }
            }
            Action::Download { path, id } => {
                log.push(format!("download {} {}", path, id));
                if fails(&path) {
                    Reply::Failed { error: "offline".to_string() }
                } else {
                    Reply::Downloaded { chars: 3 }
                }
            }
            Action::SetMtime { path, ms } => {
                log.push(format!("date {} {}", path, (ms - T0) / 1000));
                Reply::Done
            }
            Action::Probe { from, to } => Reply::Probed {
                from: world.present.contains(&from.as_str()),
                to: world.present.contains(&to.as_str()),
            },
            Action::Rename { from, to } => {
                log.push(format!("rename {} {}", from, to));
                Reply::Renamed { mtime: Some(T0 + 7_000) }
            }
            Action::SaveIndex => {
                log.push("save".to_string());
                Reply::Done
            }
            Action::Finish { outcome } => {
                let mut m = SyncMeta::new();
                let at = run.index();
                for i in 0..at.files.len() {
                    m.files.insert(at.files.key_at(i).clone(), at.files.value_at(i).clone());
                }
                return (log, m, outcome);
            }
        };
        assert!(run.accepts(&reply));
        run.advance(reply);
    }
}

fn world(notes: Vec<(&'static str, u64)>) -> World {
    World { notes, present: Vec::new(), failing: None, no_copies: false }
}

#[test]
fn a_new_note_is_uploaded() {
    let (log, m, outcome) = run(index(&[]), vec![], world(vec![("a.md", 10)]));
    assert_eq!(log, vec!["upload a.md", "save"]);
    assert_eq!(entries(&m)["a.md"], ("new-a.md".to_string(), 10, 50));
    let r = outcome.unwrap();
    assert_eq!((r.uploaded, r.downloaded, r.conflicts, r.chars_synced), (1, 0, 0, 10));
    assert_eq!(r.summary, "Synced 1 note, 0 conflicts");
}

#[test]
fn a_note_without_an_entry_meets_a_file_of_its_name() {
    let files = || vec![file("1", "a.md", 20)];
    let (log, m, _) = run(index(&[]), files(), world(vec![("a.md", 30)]));
    assert_eq!(log, vec!["update a.md 1", "save"]);
    assert_eq!(entries(&m)["a.md"], ("1".to_string(), 30, 50));
    let (log, m, _) = run(index(&[]), files(), world(vec![("a.md", 20)]));
    assert_eq!(log, vec!["download a.md 1", "date a.md 20", "save"]);
    assert_eq!(entries(&m)["a.md"], ("1".to_string(), 20, 20));
}

#[test]
fn a_note_whose_file_is_gone_is_uploaded_anew() {
    let (log, m, _) = run(index(&[("a.md", "1", 10, 10)]), vec![], world(vec![("a.md", 10)]));
    assert_eq!(log, vec!["upload a.md", "save"]);
    assert_eq!(entries(&m)["a.md"], ("new-a.md".to_string(), 10, 50));
}

#[test]
fn one_side_that_changed_replaces_the_other() {
    let m = || index(&[("a.md", "1", 10, 10)]);
    let (log, _, _) = run(m(), vec![file("1", "a.md", 10)], world(vec![("a.md", 30)]));
    assert_eq!(log, vec!["update a.md 1", "save"]);
    let (log, _, _) = run(m(), vec![file("1", "a.md", 30)], world(vec![("a.md", 10)]));
    assert_eq!(log, vec!["download a.md 1", "date a.md 30", "save"]);
}

#[test]
fn a_conflict_keeps_both_versions() {
    let m = || index(&[("a.md", "1", 10, 10)]);
    let (log, _, outcome) = run(m(), vec![file("1", "a.md", 20)], world(vec![("a.md", 30)]));
    assert_eq!(log, vec!["copy remote a.md 1", "update a.md 1", "save"]);
    let r = outcome.unwrap();
    assert_eq!((r.uploaded, r.downloaded, r.conflicts), (1, 0, 1));
    assert_eq!(r.summary, "Synced 1 note, 1 conflict");
    let (log, m, _) = run(m(), vec![file("1", "a.md", 30)], world(vec![("a.md", 20)]));
    assert_eq!(log, vec!["copy local a.md", "download a.md 1", "date a.md 30", "save"]);
    assert_eq!(entries(&m)["a.md"], ("1".to_string(), 30, 30));
}

#[test]
fn nothing_is_overwritten_without_a_copy() {
    let m = || index(&[("a.md", "1", 10, 10)]);
    for (secs, copy) in [(20, "copy remote a.md 1"), (30, "copy local a.md")] {
        let mut w = world(vec![("a.md", 50 - secs), ("b.md", 5)]);
        w.no_copies = true;
        let (log, after, outcome) = run(m(), vec![file("1", "a.md", secs)], w);
        assert_eq!(log, vec![copy, "save"]);
        assert_eq!(entries(&after), entries(&m()));
        assert_eq!(outcome.unwrap_err(), "no copy");
    }
}

#[test]
fn a_settled_vault_is_left_alone() {
    let before = [("a.md", "1", 10, 10), ("b.md", "2", 20, 21)];
    let files = vec![file("1", "a.md", 10), file("2", "b.md", 20), folder("3", "sub")];
    let (log, m, outcome) = run(index(&before), files, world(vec![("a.md", 11), ("b.md", 20)]));
    assert_eq!(log, vec!["save"]);
    assert_eq!(entries(&m), entries(&index(&before)));
    let r = outcome.unwrap();
    assert_eq!(r.summary, "Already up to date");
    assert_eq!(r.chars_synced, 0);
}

#[test]
fn a_second_sync_does_nothing() {
    let files = || vec![file("1", "a.md", 20)];
    let (_, m, _) = run(index(&[]), files(), world(vec![("a.md", 10)]));
    // The download gave the note the time of the file.
    let (log, _, outcome) = run(m, files(), world(vec![("a.md", 20)]));
    assert_eq!(log, vec!["save"]);
    assert_eq!(outcome.unwrap().summary, "Already up to date");
}

/// Both sides, with times in seconds.
struct Sides {
    notes: BTreeMap<String, u64>,
    files: BTreeMap<String, (String, u64)>,
    given: usize,
}

impl Sides {
    fn listed(&self) -> Vec<DriveFile> {
        self.files.iter().map(|(id, (name, secs))| file(id, name, *secs)).collect()
    }

    /// Does what a sync asks for.
    fn sync(&mut self, m: SyncMeta) -> (usize, SyncMeta, SyncResult) {
        let mut run = SyncRun::begin(m, &self.listed());
        let mut steps = 0;
        loop {
            steps += 1;
            let reply = match run.pending() {
                Action::DeleteRemote { id } => {
                    self.files.remove(&id);
                    Reply::Done
                }
                Action::ScanNotes => {
                    let mut notes: PathMap<u64> = PathMap::new();
                    for (path, secs) in &self.notes {
                        notes.insert(path.clone(), T0 + secs * 1000);
                    }
                    Reply::Scanned { notes }
                }
                Action::Upload { path } => {
                    self.given += 1;
                    let id = format!("given-{}", self.given);
                    self.files.insert(id.clone(), (path, 500));
                    Reply::Uploaded { id, ms: T0 + 500_000, chars: 1 }
                }
                Action::Update { id, .. } => {
                    self.files.get_mut(&id).unwrap().1 = 600;
                    Reply::Updated { ms: T0 + 600_000, chars: 1 }
                }
                Action::Download { path, .. } => {
                    self.notes.insert(path, 999);
                    Reply::Downloaded { chars: 1 }
                }
                Action::SetMtime { path, ms } => {
                    self.notes.insert(path, (ms - T0) / 1000);
                    Reply::Done
                }
                Action::SaveIndex => Reply::Done,
                Action::Finish { outcome } => {
                    let mut m = SyncMeta::new();
                    let at = run.index();
                    for i in 0..at.files.len() {
                        m.files.insert(at.files.key_at(i).clone(), at.files.value_at(i).clone());
                    }
                    return (steps, m, outcome.unwrap());
                }
                other => panic!("unexpected {:?}", other),
            };
            assert!(run.accepts(&reply));
            run.advance(reply);
        }
    }
}

#[test]
fn after_one_sync_the_next_has_nothing_to_do() {
    let text = |s: &str| s.to_string();
    let mut sides = Sides {
        notes: BTreeMap::from([
            (text("new.md"), 10),
            (text("kept.md"), 20),
            (text("edited.md"), 99),
            (text("older.md"), 20),
            (text("lost.md"), 20),
            (text("d/met.md"), 5),
        ]),
        files: BTreeMap::from([
            (text("k"), (text("kept.md"), 20)),
            (text("e"), (text("edited.md"), 20)),
            (text("o"), (text("older.md"), 70)),
            (text("m"), (text("d/met.md"), 30)),
            (text("x"), (text("deleted.md"), 20)),
            (text("r"), (text("d/remote.md"), 40)),
            (text("t1"), (text("twice.md"), 40)),
            (text("t2"), (text("twice.md"), 50)),
        ]),
        given: 0,
    };
    let before = index(&[
        ("kept.md", "k", 20, 20),
        ("edited.md", "e", 20, 20),
        ("older.md", "o", 20, 20),
        ("lost.md", "gone", 20, 20),
        ("deleted.md", "x", 20, 20),
        ("d/remote.md", "stale", 20, 20),
    ]);
    let (_, m, r) = sides.sync(before);
    assert_eq!((r.uploaded, r.downloaded, r.conflicts), (3, 4, 0));
    let names: Vec<&str> = sides.files.values().map(|(n, _)| n.as_str()).collect();
    assert_eq!(names.len(), 8);
    assert!(!names.contains(&"deleted.md"));
    assert!(names.iter().all(|n| sides.notes.contains_key(*n)));
    assert_eq!(sides.notes.len(), 8);

    let (notes, files, known) = (sides.notes.clone(), sides.files.clone(), entries(&m));
    let (steps, m, r) = sides.sync(m);
    assert_eq!(steps, 3);
    assert_eq!(r.summary, "Already up to date");
    assert_eq!((r.uploaded, r.downloaded, r.conflicts, r.chars_synced), (0, 0, 0, 0));
    assert_eq!((sides.notes, sides.files, entries(&m)), (notes, files, known));
}

#[test]
fn a_stale_id_is_refreshed() {
    let m = index(&[("a.md", "old", 10, 10)]);
    let (log, m, _) = run(m, vec![file("1", "a.md", 10)], world(vec![("a.md", 10)]));
    assert_eq!(log, vec!["save"]);
    assert_eq!(entries(&m)["a.md"], ("1".to_string(), 10, 10));
}

#[test]
fn a_rename_on_drive_is_followed() {
    let m = || index(&[("a.md", "1", 10, 10)]);
    let files = || vec![file("1", "b.md", 10)];
    let mut w = world(vec![("a.md", 10)]);
    w.present = vec!["a.md"];
    let (log, after, _) = run(m(), files(), w);
    assert_eq!(log, vec!["rename a.md b.md", "save"]);
    assert_eq!(entries(&after).len(), 1);
    assert_eq!(entries(&after)["b.md"], ("1".to_string(), 7, 10));

    // Not where something stands under the new name.
    let mut w = world(vec![("a.md", 10)]);
    w.present = vec!["a.md", "b.md"];
    let (log, after, _) = run(m(), files(), w);
    assert_eq!(log, vec!["save"]);
    assert_eq!(entries(&after)["a.md"], ("1".to_string(), 10, 10));
}

#[test]
fn files_of_deleted_notes_are_deleted() {
    let m = || index(&[("a.md", "1", 10, 10), ("b.md", "2", 10, 10)]);
    let kept = entries(&index(&[("a.md", "1", 10, 10)]));
    // Whether its file is listed or not, a deleted note does not come back.
    let listed = vec![file("1", "a.md", 10)];
    let (log, after, _) = run(m(), listed, world(vec![("a.md", 10)]));
    assert_eq!(log, vec!["delete 2", "save"]);
    assert_eq!(entries(&after), kept);
    for secs in [9, 10, 11] {
        let listed = vec![file("1", "a.md", 10), file("2", "b.md", secs)];
        let (log, after, _) = run(m(), listed, world(vec![("a.md", 10)]));
        assert_eq!(log, vec!["delete 2", "save"]);
        assert_eq!(entries(&after), kept);
    }
}

#[test]
fn a_deleted_note_that_changed_on_drive_comes_back() {
    let m = || index(&[("b.md", "2", 10, 10)]);
    for secs in [8, 12, 99] {
        let (log, after, outcome) = run(m(), vec![file("2", "b.md", secs)], world(vec![]));
        let date = format!("date b.md {}", secs);
        assert_eq!(log, vec!["download b.md 2", date.as_str(), "save"]);
        assert_eq!(entries(&after)["b.md"], ("2".to_string(), secs, secs));
        assert_eq!(outcome.unwrap().downloaded, 1);
    }
    // Under another name it is fetched before the deletion is passed on.
    let (log, after, _) = run(m(), vec![file("2", "c.md", 99)], world(vec![]));
    assert_eq!(log, vec!["download c.md 2", "date c.md 99", "delete 2", "save"]);
    assert_eq!(entries(&after).len(), 1);
    assert_eq!(entries(&after)["c.md"], ("2".to_string(), 99, 99));
}

#[test]
fn deleting_the_last_note_empties_the_index() {
    let m = index(&[("gone.md", "X", 5, 5)]);
    let (log, after, outcome) = run(m, vec![file("X", "gone.md", 5)], world(vec![]));
    assert_eq!(log, vec!["delete X", "save"]);
    assert!(entries(&after).is_empty());
    let r = outcome.unwrap();
    assert_eq!((r.uploaded, r.downloaded, r.conflicts, r.chars_synced), (0, 0, 0, 0));
    assert_eq!(r.summary, "Already up to date");
}

#[test]
fn files_that_only_drive_has_are_fetched() {
    let files = vec![file("1", "a.md", 10), folder("2", "dir"), file("3", "x/b.md", 20)];
    let (log, m, outcome) = run(index(&[]), files, world(vec![]));
    assert_eq!(
        log,
        vec!["download a.md 1", "date a.md 10", "download x/b.md 3", "date x/b.md 20", "save"]
    );
    assert_eq!(entries(&m).len(), 2);
    let r = outcome.unwrap();
    assert_eq!((r.uploaded, r.downloaded, r.chars_synced), (0, 2, 6));
    assert_eq!(r.summary, "Synced 2 notes, 0 conflicts");
}

#[test]
fn a_failure_keeps_what_was_done() {
    let mut w = world(vec![("a.md", 10), ("b.md", 10), ("c.md", 10)]);
    w.failing = Some("b.md");
    let (log, m, outcome) = run(index(&[]), vec![], w);
    assert_eq!(log, vec!["upload a.md", "upload b.md", "save"]);
    assert_eq!(outcome.unwrap_err(), "offline");
    assert_eq!(entries(&m).len(), 1);
    assert!(entries(&m).contains_key("a.md"));
}

#[test]
fn surplus_files_are_deleted_first() {
    let files = vec![file("1", "a.md", 10), file("2", "a.md", 30), file("3", "a.md", 20)];
    let (log, _, _) = run(index(&[]), files, world(vec![]));
    assert_eq!(log, vec!["delete 1", "delete 3", "download a.md 2", "date a.md 30", "save"]);
}

#[test]
fn of_files_with_one_name_the_best_is_kept() {
    let kept = |m: &SyncMeta, files: Vec<DriveFile>| -> (Vec<String>, Vec<String>) {
        let (k, d) = dedup_files(m, &files);
        (k.into_iter().map(|f| f.id).collect(), d)
    };
    let three = || vec![file("2", "a", 10), file("1", "a", 10), file("3", "a", 5)];
    // The later, and on a tie the lesser id.
    assert_eq!(kept(&index(&[]), three()), (vec!["1".to_string()], vec!["2".to_string(), "3".to_string()]));
    // The one that the index maps the name to.
    let m = index(&[("a", "3", 0, 0)]);
    assert_eq!(kept(&m, three()).0, vec!["3".to_string()]);
    assert_eq!(kept(&m, vec![file("9", "b", 1), file("8", "c", 1)]).0.len(), 2);
}

#[test]
fn counterparts_go_by_id_and_then_by_name() {
    let files = vec![file("1", "a", 0), file("2", "b", 0)];
    let e = SyncFileEntry { id: "2".to_string(), local_mtime_ms: 0, remote_mtime_ms: 0 };
    assert_eq!(find_counterpart(Some(&e), &files, "a"), Some((1, true)));
    assert_eq!(find_counterpart(None, &files, "a"), Some((0, false)));
    assert_eq!(find_counterpart(None, &files, "c"), None);
    let gone = SyncFileEntry { id: "9".to_string(), local_mtime_ms: 0, remote_mtime_ms: 0 };
    assert_eq!(find_counterpart(Some(&gone), &files, "b"), Some((1, false)));
}

#[test]
fn plans_depend_on_what_changed() {
    let e = SyncFileEntry {
        id: "1".to_string(),
        local_mtime_ms: T0 + 10_000,
        remote_mtime_ms: T0 + 10_000,
    };
    let plan = |local: u64, secs: u64| decide(Some(&e), T0 + local, Some(&file("1", "a", secs)));
    assert_eq!(plan(10_000, 10), Plan::Keep);
    assert_eq!(plan(11_000, 11), Plan::Keep);
    assert_eq!(plan(11_001, 10), Plan::Push { rescue: false });
    assert_eq!(plan(10_000, 12), Plan::Pull { rescue: false });
    assert_eq!(plan(20_001, 20), Plan::Push { rescue: true });
    assert_eq!(plan(20_000, 20), Plan::Pull { rescue: true });
    assert_eq!(decide(Some(&e), T0, None), Plan::Create);
    assert_eq!(decide(None, T0, None), Plan::Create);
}

#[test]
fn summaries_count() {
    assert_eq!(summary(0, 0), "Already up to date");
    assert_eq!(summary(1, 0), "Synced 1 note, 0 conflicts");
    assert_eq!(summary(0, 1), "Synced 0 notes, 1 conflict");
    assert_eq!(summary(12, 3), "Synced 12 notes, 3 conflicts");
}

#[test]
fn replies_must_answer_what_was_asked() {
    let run = SyncRun::begin(SyncMeta::new(), &vec![]);
    assert!(!run.accepts(&Reply::Done));
    assert!(run.accepts(&Reply::Failed { error: "x".to_string() }));
    assert!(run.accepts(&Reply::Scanned { notes: PathMap::new() }));
}

#[test]
fn every_file_but_the_hidden_takes_part_in_a_sync() {
    let entry = |path: &str, is_file: bool, mtime: Option<u64>| Entry {
        path: path.to_string(),
        name: Some(path.rsplit('/').next().unwrap().to_string()),
        is_dir: !is_file,
        is_file,
        len: None,
        mtime,
        content: None,
    };
    let es = vec![
        entry("/n/a.md", true, Some(5)),
        entry("/n/d", false, Some(6)),
        entry("/n/d/b.png", true, None),
        entry("/n/.sync.json", true, Some(7)),
        entry("/n/d/.x", true, Some(8)),
        entry("/m/c.md", true, Some(9)),
    ];
    let notes = scan_local_dir("/n", Some(&es));
    assert_eq!(notes.len(), 2);
    assert_eq!(notes.get("a.md"), Some(&5));
    assert_eq!(notes.get("d/b.png"), Some(&0));
    assert_eq!(scan_local_dir("/n", None).len(), 0);
}

#[test]
fn a_path_map_keeps_the_order_of_its_keys() {
    let mut m: PathMap<u64> = PathMap::new();
    m.insert("b".to_string(), 1);
    m.insert("a".to_string(), 2);
    m.insert("b".to_string(), 3);
    assert_eq!(m.len(), 2);
    assert_eq!((m.key_at(0).as_str(), *m.value_at(0)), ("b", 3));
    assert_eq!(m.remove("b"), Some(3));
    assert_eq!(m.remove("b"), None);
    assert!(!m.contains_key("b"));
    assert_eq!(m.key_at(0), "a");
}
