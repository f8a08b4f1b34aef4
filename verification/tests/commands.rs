use aanote::listing::Entry;
use aanote::notes::{
    create_folder, create_note, delete_node, delete_outcome, file_mtime, folder_path, move_node,
    move_outcome, note_path, open_external_url, read_note, sanitize_name, save_note,
    save_note_if_unchanged, Kind, Stat,
};
use aanote::recent::list_recent;
use aanote::search::{search_notes, search_notes_snippet, SearchHit};
use aanote::steps::{Answer, FileStep};
use aanote::trash::{restore_from_trash, trash_node};
use aanote::tree::{scan_directory, FileNode, Listing};
use aanote::write::{AtomicWrite, Purpose, WriteStep};
use std::collections::{BTreeMap, BTreeSet};

const ROOT: &str = "/notes";

/// A file system in memory. Every write is one second later than the last.
struct Disk {
    files: BTreeMap<String, (String, u64)>,
    dirs: BTreeSet<String>,
    clock: u64,
}

impl Disk {
    fn new() -> Disk {
        let mut dirs = BTreeSet::new();
        dirs.insert(ROOT.to_string());
        Disk { files: BTreeMap::new(), dirs, clock: 1_700_000_000_000 }
    }

    fn has(&self, path: &str) -> bool {
        self.files.contains_key(path) || self.dirs.contains(path)
    }

    fn make_dir(&mut self, path: &str) {
        let mut at = String::new();
        for piece in path.split('/').skip(1) {
            at.push('/');
            at.push_str(piece);
            self.dirs.insert(at.clone());
        }
    }

    fn write(&mut self, path: &str, content: &str) {
        self.clock += 1000;
        self.files.insert(path.to_string(), (content.to_string(), self.clock));
    }

    fn rename(&mut self, from: &str, to: &str) {
        if let Some(f) = self.files.remove(from) {
            self.files.insert(to.to_string(), f);
        } else {
            let inside = format!("{}/", from);
            let moved: Vec<String> =
                self.files.keys().filter(|k| k.starts_with(&inside)).cloned().collect();
            for k in moved {
                let f = self.files.remove(&k).unwrap();
                self.files.insert(format!("{}/{}", to, &k[inside.len()..]), f);
            }
            self.dirs.remove(from);
            self.dirs.insert(to.to_string());
        }
    }

    fn remove_tree(&mut self, path: &str) {
        let inside = format!("{}/", path);
        self.files.retain(|k, _| !k.starts_with(&inside));
        self.dirs.retain(|k| k != path && !k.starts_with(&inside));
    }

    /// Everything below the root, each folder before what lies in it.
    fn walk(&self) -> Vec<Entry> {
        let mut all: Vec<Entry> = Vec::new();
        for d in &self.dirs {
            if d != ROOT {
                all.push(Entry {
                    path: d.clone(),
                    name: Some(d.rsplit('/').next().unwrap().to_string()),
                    is_dir: true,
                    is_file: false,
                    len: Some(4096),
                    mtime: None,
                    content: None,
                });
            }
        }
        for (p, (content, ms)) in &self.files {
            all.push(Entry {
                path: p.clone(),
                name: Some(p.rsplit('/').next().unwrap().to_string()),
                is_dir: false,
                is_file: true,
                len: Some(content.len() as u64),
                mtime: Some(*ms),
                content: Some(content.clone()),
            });
        }
        all
    }

    fn scan(&self) -> Result<Vec<FileNode>, String> {
        scan_directory(ROOT, &Listing::Entries(self.walk()))
    }

    fn atomic_write(&mut self, path: &str, content: &str) -> Result<(), String> {
        let mut w = AtomicWrite::begin(Purpose::Note, path);
        loop {
            let outcome = match w.pending() {
                WriteStep::MakeDir { dir } => {
                    self.make_dir(&dir);
                    Ok(())
                }
                WriteStep::Create { tmp } => {
                    self.write(&tmp, "");
                    Ok(())
                }
                WriteStep::Write { tmp } => {
                    self.write(&tmp, content);
                    Ok(())
                }
                WriteStep::Sync { .. } => Ok(()),
                WriteStep::Rename { tmp, path } => {
                    self.rename(&tmp, &path);
                    Ok(())
                }
                WriteStep::Remove { tmp } => {
                    self.files.remove(&tmp);
                    Ok(())
                }
                WriteStep::Finish { outcome } => return outcome,
            };
            w.advance(outcome);
        }
    }

    fn create_folder(&mut self, dir: &str, name: &str) -> Result<String, String> {
        let place = folder_path(dir, name)?;
        let taken = self.has(&place);
        let p = create_folder(dir, name, taken)?;
        self.make_dir(&p);
        Ok(p)
    }

    fn create_note(&mut self, dir: &str, name: &str) -> Result<String, String> {
        let place = note_path(dir, name)?;
        let taken = self.has(&place);
        let p = create_note(dir, name, taken)?;
        self.atomic_write(&p, "")?;
        Ok(p)
    }

    fn move_node(&mut self, old: &str, new: &str) -> Result<(), String> {
        move_node(new, self.has(new))?;
        self.rename(old, new);
        move_outcome(old, new, Ok(()))
    }

    fn save_note(&mut self, path: &str, content: &str) -> Result<(), String> {
        let written = self.atomic_write(path, content);
        save_note(path, written)
    }

    fn read_note(&self, path: &str) -> Result<String, String> {
        let read = match self.files.get(path) {
            Some((c, _)) => Ok(c.clone()),
            None => Err("not found".to_string()),
        };
        read_note(path, read)
    }

    fn file_mtime(&self, path: &str) -> Result<Option<u64>, String> {
        let stat = match self.files.get(path) {
            Some((_, ms)) => Stat::Changed { secs: ms / 1000, millis: (ms % 1000) as u32 },
            None => Stat::Missing,
        };
        file_mtime(&stat)
    }

    fn save_note_if_unchanged(
        &mut self,
        path: &str,
        content: &str,
        expected: Option<u64>,
    ) -> Result<bool, String> {
        if !save_note_if_unchanged(expected, self.file_mtime(path))? {
            return Ok(false);
        }
        self.atomic_write(path, content)?;
        Ok(true)
    }

    fn delete_node(&mut self, path: &str) -> Result<(), String> {
        let kind = if self.dirs.contains(path) {
            Kind::Folder
        } else if self.files.contains_key(path) {
            Kind::File
        } else {
            Kind::Nothing
        };
        delete_node(path, kind)?;
        if kind == Kind::Folder {
            self.remove_tree(path);
        } else {
            self.files.remove(path);
        }
        delete_outcome(path, kind, Ok(()))
    }

    fn trash_node(&mut self, path: &str) -> Result<String, String> {
        let mut t = trash_node(ROOT, path);
        loop {
            let answer = match t.pending() {
                FileStep::Probe { path } => Answer::Exists(self.has(&path)),
                FileStep::MakeDir { dir } => {
                    self.make_dir(&dir);
                    Answer::Outcome(Ok(()))
                }
                FileStep::Rename { from, to } => {
                    self.rename(&from, &to);
                    Answer::Outcome(Ok(()))
                }
                FileStep::Finish { outcome } => return outcome,
                _ => unreachable!(),
            };
            t.advance(answer);
        }
    }

    fn restore_from_trash(&mut self, trash_path: &str) -> Result<String, String> {
        let mut t = restore_from_trash(ROOT, trash_path);
        loop {
            let answer = match t.pending() {
                FileStep::Probe { path } => Answer::Exists(self.has(&path)),
                FileStep::MakeDir { dir } => {
                    self.make_dir(&dir);
                    Answer::Outcome(Ok(()))
                }
                FileStep::Rename { from, to } => {
                    self.rename(&from, &to);
                    Answer::Outcome(Ok(()))
                }
                FileStep::Finish { outcome } => return outcome,
                _ => unreachable!(),
            };
            t.advance(answer);
        }
    }
}

fn at(rel: &str) -> String {
    format!("{}/{}", ROOT, rel)
}

#[test]
fn create_folder_then_scan_finds_it() {
    let mut disk = Disk::new();

    disk.create_folder(ROOT, "projects").unwrap();
    assert!(disk.dirs.contains(&at("projects")));

    let tree = disk.scan().unwrap();
    assert_eq!(tree.len(), 1);
    assert_eq!(tree[0].name, "projects");
    assert!(tree[0].is_dir);
}

#[test]
fn create_note_inside_folder_appears_nested() {
    let mut disk = Disk::new();

    disk.create_folder(ROOT, "journal").unwrap();
    disk.create_note(&at("journal"), "july").unwrap();

    let tree = disk.scan().unwrap();
    assert_eq!(tree.len(), 1);
    assert!(tree[0].is_dir);
    assert_eq!(tree[0].children.len(), 1);
    assert_eq!(tree[0].children[0].name, "july.md");
    assert_eq!(tree[0].children[0].path, "journal/july.md");
}

#[test]
fn move_note_into_folder_updates_tree() {
    let mut disk = Disk::new();

    disk.create_folder(ROOT, "archive").unwrap();
    disk.create_note(ROOT, "todo").unwrap();
    disk.move_node(&at("todo.md"), &at("archive/todo.md")).unwrap();

    let tree = disk.scan().unwrap();
    assert_eq!(tree.len(), 1);
    assert!(tree[0].is_dir);
    assert_eq!(tree[0].children[0].name, "todo.md");
}

#[test]
fn search_finds_content() {
    let mut disk = Disk::new();

    disk.create_note(ROOT, "alpha").unwrap();
    disk.save_note(&at("alpha.md"), "hello skiathos").unwrap();

    let all = disk.walk();
    let hits = search_notes(ROOT, Some(&all), "skiathos").unwrap();
    assert_eq!(hits, vec!["alpha.md".to_string()]);
    let none = search_notes(ROOT, Some(&all), "zzz-nothing").unwrap();
    assert!(none.is_empty());
}

#[test]
fn delete_removes_file_and_dir() {
    let mut disk = Disk::new();

    disk.create_note(ROOT, "bye").unwrap();
    disk.delete_node(&at("bye.md")).unwrap();
    assert!(!disk.has(&at("bye.md")));

    disk.create_folder(ROOT, "doomed").unwrap();
    disk.create_note(&at("doomed"), "inner").unwrap();
    disk.delete_node(&at("doomed")).unwrap();
    assert!(!disk.has(&at("doomed")));
    assert_eq!(
        disk.delete_node(&at("doomed")),
        Err("Does not exist: /notes/doomed".to_string())
    );
}

#[test]
fn sanitize_rejects_traversal_and_separators() {
    assert!(sanitize_name("../escape").is_err());
    assert!(sanitize_name("a/b").is_err());
    assert!(sanitize_name("a\\b").is_err());
    assert!(sanitize_name("/abs").is_err());
    assert!(sanitize_name("   ").is_err());
    assert_eq!(sanitize_name("  hello  ").unwrap(), "hello");
    assert_eq!(sanitize_name("note #1").unwrap(), "note #1");
}

#[test]
fn sanitize_names_its_errors() {
    assert_eq!(sanitize_name(" \t "), Err("Name cannot be empty".to_string()));
    assert_eq!(
        sanitize_name(" a/b "),
        Err("Name cannot contain a path separator (/ or \\): \"a/b\"".to_string())
    );
    assert_eq!(
        sanitize_name("a\\b"),
        Err("Name cannot contain a path separator (/ or \\): \"a\\b\"".to_string())
    );
    assert_eq!(sanitize_name(" .. "), Err("Name cannot contain \"..\"".to_string()));
    assert_eq!(sanitize_name("..."), Ok("...".to_string()));
    assert_eq!(sanitize_name("."), Ok(".".to_string()));
}

#[test]
fn create_note_rejects_traversal_name() {
    let mut disk = Disk::new();
    let err = disk.create_note(ROOT, "../escape");
    assert!(err.is_err(), "traversal name must be rejected");
    // And nothing escaped outside root.
    assert!(!disk.has("/escape.md"));
    assert!(disk.files.is_empty());
}

#[test]
fn create_refuses_what_exists() {
    let mut disk = Disk::new();
    assert_eq!(disk.create_note(ROOT, " a "), Ok("/notes/a.md".to_string()));
    assert_eq!(
        disk.create_note(ROOT, "a"),
        Err("Note already exists: /notes/a.md".to_string())
    );
    assert_eq!(disk.create_folder(ROOT, "b"), Ok("/notes/b".to_string()));
    assert_eq!(
        disk.create_folder(ROOT, "b"),
        Err("Folder already exists: /notes/b".to_string())
    );
}

#[test]
fn move_node_refuses_to_overwrite() {
    let mut disk = Disk::new();
    disk.create_note(ROOT, "a").unwrap();
    disk.create_note(ROOT, "b").unwrap();
    let err = disk.move_node(&at("a.md"), &at("b.md"));
    assert!(err.is_err(), "move onto existing must fail");
    assert_eq!(err, Err("Destination already exists: /notes/b.md".to_string()));
    // Both originals still present.
    assert!(disk.has(&at("a.md")));
    assert!(disk.has(&at("b.md")));
}

#[test]
fn failures_name_what_failed() {
    let cause = || Err("no space".to_string());
    assert_eq!(
        move_outcome("/a", "/b", cause()),
        Err("Failed to move /a to /b: no space".to_string())
    );
    assert_eq!(
        delete_outcome("/a", Kind::Folder, cause()),
        Err("Failed to delete folder /a: no space".to_string())
    );
    assert_eq!(
        delete_outcome("/a", Kind::File, cause()),
        Err("Failed to delete /a: no space".to_string())
    );
    assert_eq!(save_note("/a", cause()), Err("Failed to save /a: no space".to_string()));
    assert_eq!(
        read_note("/a", Err("no space".to_string())),
        Err("Failed to read /a: no space".to_string())
    );
    assert_eq!(file_mtime(&Stat::Failed), Ok(None));
    assert_eq!(file_mtime(&Stat::Unknown), Ok(None));
}

#[test]
fn save_is_atomic_and_replaces_content() {
    let mut disk = Disk::new();
    let p = at("note.md");
    disk.save_note(&p, "first").unwrap();
    assert_eq!(disk.read_note(&p).unwrap(), "first");
    disk.save_note(&p, "second").unwrap();
    assert_eq!(disk.read_note(&p).unwrap(), "second");
    // No leftover temp files.
    for name in disk.files.keys() {
        assert!(
            !name.rsplit('/').next().unwrap().starts_with(".aanote-tmp"),
            "temp file leaked"
        );
    }
}

#[test]
fn reading_gives_plain_line_breaks() {
    let read = |s: &str| read_note("/a", Ok(s.to_string())).unwrap();
    assert_eq!(read("a\r\nb\r\n"), "a\nb\n");
    assert_eq!(read("a\rb\n\r"), "a\rb\n\r");
    assert_eq!(read("\r\r\n\n"), "\r\n\n");
}

#[test]
fn save_if_unchanged_blocks_when_disk_changed() {
    let mut disk = Disk::new();
    let p = at("note.md");
    disk.save_note(&p, "v1").unwrap();
    let mtime = disk.file_mtime(&p).unwrap().unwrap();

    // Simulate a sync/other-writer change behind the editor's back.
    disk.save_note(&p, "v2-from-sync").unwrap();
    let new_mtime = disk.file_mtime(&p).unwrap().unwrap();
    assert_ne!(mtime, new_mtime, "mtime should differ after rewrite");

    // Editor still holds the OLD mtime; save must be refused.
    let saved = disk.save_note_if_unchanged(&p, "v3-from-editor", Some(mtime));
    assert_eq!(saved.unwrap(), false);
    assert_eq!(disk.read_note(&p).unwrap(), "v2-from-sync");
}

#[test]
fn save_if_unchanged_allows_when_stable() {
    let mut disk = Disk::new();
    let p = at("note.md");
    disk.save_note(&p, "v1").unwrap();
    let mtime = disk.file_mtime(&p).unwrap().unwrap();
    let saved = disk.save_note_if_unchanged(&p, "v2", Some(mtime));
    assert_eq!(saved.unwrap(), true);
    assert_eq!(disk.read_note(&p).unwrap(), "v2");
}

#[test]
fn save_if_unchanged_other_answers() {
    // A note that is gone may be written anew.
    assert_eq!(save_note_if_unchanged(Some(1), Ok(None)), Ok(true));
    // Without an expected time, the disk does not matter.
    assert_eq!(save_note_if_unchanged(None, Ok(Some(7))), Ok(true));
    assert_eq!(save_note_if_unchanged(None, Err("x".to_string())), Ok(true));
    assert_eq!(save_note_if_unchanged(Some(1), Err("x".to_string())), Err("x".to_string()));
}

#[test]
fn trash_then_restore_roundtrip() {
    let mut disk = Disk::new();
    disk.create_note(ROOT, "doomed").unwrap();
    let abs = at("doomed.md");
    let trash_path = disk.trash_node(&abs).unwrap();
    assert!(!disk.has(&at("doomed.md")), "note should be gone");
    assert!(disk.has(&trash_path), "trashed file should exist");
    assert!(trash_path.starts_with("/notes/.aanote-trash/2"));
    assert!(trash_path.ends_with("-doomed.md"));

    disk.restore_from_trash(&trash_path).unwrap();
    assert!(disk.has(&at("doomed.md")), "note should be back");
    assert_eq!(disk.read_note(&abs).unwrap(), "");
}

#[test]
fn nested_notes_come_back_from_the_trash() {
    let mut disk = Disk::new();
    disk.create_folder(ROOT, "a_b").unwrap();
    disk.create_note(&at("a_b"), "c_d").unwrap();
    let trash_path = disk.trash_node(&at("a_b/c_d.md")).unwrap();
    assert!(trash_path.ends_with("-a_b__c_d.md"));
    assert_eq!(disk.restore_from_trash(&trash_path), Ok(at("a_b/c_d.md")));
}

#[test]
fn restoring_refuses_to_overwrite() {
    let mut disk = Disk::new();
    disk.create_note(ROOT, "a").unwrap();
    let trash_path = disk.trash_node(&at("a.md")).unwrap();
    disk.create_note(ROOT, "a").unwrap();
    assert_eq!(
        disk.restore_from_trash(&trash_path),
        Err("A file already exists at the original location: /notes/a.md".to_string())
    );
    assert!(disk.has(&trash_path));
}

#[test]
fn trashing_what_is_not_there_fails() {
    let mut disk = Disk::new();
    assert_eq!(disk.trash_node(&at("no.md")), Err("Does not exist: no.md".to_string()));
    assert_eq!(
        disk.trash_node("/elsewhere/no.md"),
        Err("Does not exist: /elsewhere/no.md".to_string())
    );
}

#[test]
fn trash_is_hidden_from_scan() {
    let mut disk = Disk::new();
    disk.create_note(ROOT, "visible").unwrap();
    disk.create_note(ROOT, "hidden").unwrap();
    let abs = at("hidden.md");
    let _ = disk.trash_node(&abs).unwrap();

    let tree = disk.scan().unwrap();
    let names: Vec<_> = tree.iter().map(|n| n.name.clone()).collect();
    assert!(names.contains(&"visible.md".to_string()));
    assert!(!names.iter().any(|n| n.contains("hidden")));
    assert_eq!(tree.len(), 1);
}

#[test]
fn search_snippet_returns_context() {
    let mut disk = Disk::new();
    disk.create_note(ROOT, "doc").unwrap();
    disk.save_note(&at("doc.md"), "intro line\nthe magic word is xyzzy here\nmore").unwrap();
    let hits: Vec<SearchHit> =
        search_notes_snippet(ROOT, Some(&disk.walk()), "xyzzy").unwrap();
    assert_eq!(hits.len(), 1);
    assert!(hits[0].snippet.contains("xyzzy"));
    assert_eq!(hits[0].path, "doc.md");
    assert_eq!(hits[0].snippet, "intro line the magic word is xyzzy here more");
}

#[test]
fn list_recent_orders_by_mtime_desc() {
    let mut disk = Disk::new();
    disk.create_note(ROOT, "old").unwrap();
    disk.create_note(ROOT, "new").unwrap();
    let recent = list_recent(ROOT, Some(&disk.walk()), None).unwrap();
    assert!(recent.len() >= 2);
    // Newest first.
    assert_eq!(recent[0].path, "new.md");
    assert_eq!(recent[1].path, "old.md");
}

#[test]
fn open_external_rejects_non_http() {
    assert!(open_external_url("file:///etc/passwd").is_err());
    assert!(open_external_url("javascript:alert(1)").is_err());
    // http(s) are accepted.
    let _ = open_external_url("https://example.com");
    assert_eq!(open_external_url("https://example.com"), Ok(()));
    assert_eq!(open_external_url("http://example.com"), Ok(()));
    assert_eq!(
        open_external_url("HTTP://example.com"),
        Err("Refusing to open non-http URL: HTTP://example.com".to_string())
    );
}
