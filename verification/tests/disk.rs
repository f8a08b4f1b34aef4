use aanote::conflict::{Rescue, Side};
use aanote::notes::read_note;
use aanote::steps::{Answer, FileStep};
use aanote::trash::{move_to_trash_at, restore_from_trash};
use aanote::write::{AtomicWrite, Purpose, WriteStep};
use std::collections::BTreeMap;

type Disk = BTreeMap<String, Vec<u8>>;

const MS: i64 = 1_704_067_200_000;

fn disk(files: &[(&str, &str)]) -> Disk {
    files.iter().map(|(p, c)| (p.to_string(), c.as_bytes().to_vec())).collect()
}

/// Writes `content`, and breaks off in step `crash`, which is done in part.
fn write_until(disk: &mut Disk, purpose: Purpose, path: &str, content: &str, crash: usize) -> bool {
    let mut write = AtomicWrite::begin(purpose, path);
    let mut steps = 0;
    loop {
        steps += 1;
        let broken = steps == crash;
        match write.pending() {
            WriteStep::MakeDir { .. } | WriteStep::Sync { .. } => {}
            WriteStep::Create { tmp } => {
                disk.insert(tmp, Vec::new());
            }
            WriteStep::Write { tmp } => {
                let n = if broken { content.len() / 2 } else { content.len() };
                disk.insert(tmp, content.as_bytes()[..n].to_vec());
            }
            WriteStep::Rename { tmp, path } => {
                if !broken {
                    let whole = disk.remove(&tmp).unwrap();
                    disk.insert(path, whole);
                }
            }
            WriteStep::Remove { tmp } => {
                disk.remove(&tmp);
            }
            WriteStep::Finish { outcome } => return outcome.is_ok(),
        }
        if broken {
            return false;
        }
        write.advance(Ok(()));
    }
}

#[test]
fn a_write_that_is_broken_off_corrupts_nothing() {
    for purpose in [Purpose::Note, Purpose::Download, Purpose::Index] {
        for crash in 1..8 {
            let mut d = disk(&[("/n/a.md", "old"), ("/n/b.md", "other")]);
            let finished = write_until(&mut d, purpose, "/n/a.md", "new content", crash);
            assert_eq!(d["/n/b.md"], b"other");
            if finished {
                assert_eq!(d["/n/a.md"], b"new content");
                assert_eq!(d.len(), 2);
            } else {
                assert!(d["/n/a.md"] == b"old" || d["/n/a.md"] == b"new content");
            }
        }
    }
}

#[test]
fn what_was_saved_is_read() {
    let mut d = Disk::new();
    for text in ["", "plain\nlines\n", "ünï\r\ncode", "\r\r\n"] {
        assert!(write_until(&mut d, Purpose::Note, "/n/a.md", text, 99));
        let stored = String::from_utf8(d["/n/a.md"].clone()).unwrap();
        assert_eq!(read_note("/n/a.md", Ok(stored)), Ok(text.replace("\r\n", "\n")));
        assert_eq!(d.len(), 1);
    }
}

fn answer(disk: &mut Disk, step: FileStep, content: &[u8]) -> Result<Answer, Option<String>> {
    Ok(match step {
        FileStep::Probe { path } => Answer::Exists(disk.contains_key(&path)),
        FileStep::MakeDir { .. } => Answer::Outcome(Ok(())),
        FileStep::Rename { from, to } => match disk.remove(&from) {
            Some(c) => {
                disk.insert(to, c);
                Answer::Outcome(Ok(()))
            }
            None => Answer::Outcome(Err("gone".to_string())),
        },
        FileStep::Copy { from, to } => {
            let c = disk[&from].clone();
            disk.insert(to, c);
            Answer::Outcome(Ok(()))
        }
        FileStep::Write { to } => {
            disk.insert(to, content.to_vec());
            Answer::Outcome(Ok(()))
        }
        FileStep::Finish { outcome } => return Err(outcome.ok()),
        FileStep::Stop => return Err(None),
    })
}

#[test]
fn an_undone_deletion_leaves_the_disk_as_it_was() {
    let before = disk(&[("/n/a/b.md", "text"), ("/n/c.md", "other")]);
    let mut d = before.clone();
    let mut t = move_to_trash_at("/n", "a/b.md", MS);
    let place = loop {
        match answer(&mut d, t.pending(), b"") {
            Ok(a) => t.advance(a),
            Err(place) => break place.unwrap(),
        }
    };
    assert_eq!(place, "/n/.aanote-trash/20240101-000000-a__b.md");
    assert_eq!(d[&place], b"text");
    assert!(!d.contains_key("/n/a/b.md"));
    assert_eq!(d["/n/c.md"], b"other");
    let mut r = restore_from_trash("/n", &place);
    let back = loop {
        match answer(&mut d, r.pending(), b"") {
            Ok(a) => r.advance(a),
            Err(back) => break back.unwrap(),
        }
    };
    assert_eq!(back, "/n/a/b.md");
    assert_eq!(d, before);
}

#[test]
fn nothing_is_restored_over_another_note() {
    let path = "/n/.aanote-trash/20240101-000000-a.md";
    let before = disk(&[(path, "old"), ("/n/a.md", "new")]);
    let mut d = before.clone();
    let mut r = restore_from_trash("/n", path);
    let end = loop {
        match r.pending() {
            FileStep::Finish { outcome } => break outcome,
            step => r.advance(answer(&mut d, step, b"").unwrap()),
        }
    };
    assert_eq!(end, Err("A file already exists at the original location: /n/a.md".to_string()));
    assert_eq!(d, before);
}

#[test]
fn deletions_of_one_second_are_kept_apart() {
    let mut d = Disk::new();
    let mut places = Vec::new();
    for text in ["one", "two", "three"] {
        d.insert("/n/a.md".to_string(), text.as_bytes().to_vec());
        let mut t = move_to_trash_at("/n", "a.md", MS);
        let place = loop {
            match answer(&mut d, t.pending(), b"") {
                Ok(a) => t.advance(a),
                Err(place) => break place.unwrap(),
            }
        };
        places.push((place, text));
    }
    assert_eq!(
        d,
        disk(&[
            ("/n/.aanote-trash/20240101-000000-a.md", "one"),
            ("/n/.aanote-trash/20240101-000000.1-a.md", "two"),
            ("/n/.aanote-trash/20240101-000000.2-a.md", "three"),
        ])
    );
    // Each comes back under its own name.
    for (place, text) in places {
        let mut r = restore_from_trash("/n", &place);
        while let Ok(a) = answer(&mut d, r.pending(), b"") {
            r.advance(a);
        }
        assert_eq!(d.remove("/n/a.md").unwrap(), text.as_bytes());
    }
    assert!(d.is_empty());
}

#[test]
fn conflict_copies_change_nothing_else() {
    let before = disk(&[("/n/a.md", "mine"), ("/n/b.md", "other")]);
    let mut d = before.clone();
    for side in [Side::Local, Side::Local, Side::Remote] {
        let mut r = Rescue::begin_at(side, "/n", "a.md", MS);
        while let Ok(a) = answer(&mut d, r.pending(), b"theirs") {
            r.advance(a);
        }
    }
    let mut expected = before;
    expected.extend(disk(&[
        ("/n/a (local conflict 20240101-000000000).md", "mine"),
        ("/n/a (local conflict 20240101-000000000-2).md", "mine"),
        ("/n/a (remote conflict 20240101-000000000).md", "theirs"),
    ]));
    assert_eq!(d, expected);
}
