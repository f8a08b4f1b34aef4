use aanote::conflict::{Rescue, Side};
use aanote::notes::{millis_of, split_millis};
use aanote::steps::{Answer, FileStep};
use aanote::trash::{
    cutoff_at, empty_trash, expired, move_to_trash_at, purge_at, purge_old_trash,
    restore_from_trash, restore_target, trash_dir_for, trash_path_at, trash_path_for, Emptying,
    Trashing,
};
use aanote::write::{AtomicWrite, Purpose, WriteStep};

const MS: i64 = 1_704_067_200_000;

#[test]
fn names_in_the_trash_carry_time_and_path() {
    assert_eq!(trash_dir_for("/n"), "/n/.aanote-trash");
    assert_eq!(trash_dir_for(""), ".aanote-trash");
    assert_eq!(
        trash_path_at("/n", "a/b c.md", MS),
        "/n/.aanote-trash/20240101-000000-a__b c.md"
    );
    let now = trash_path_for("/n", "a/b.md");
    assert!(now.starts_with("/n/.aanote-trash/2"));
    assert!(now.ends_with("-a__b.md"));
    assert_eq!(restore_target("/n", &now), Ok("/n/a/b.md".to_string()));
}

#[test]
fn names_in_the_trash_tell_the_origin() {
    for rel in [
        "a.md", "a/b.md", "a/_b.md", "a_b/c.md", "x-y/z-1.md", "_", "a_", "/abs/x", "my__note.md",
        "a_/b", "a__/__b", "___", "50%.md", "a%5Fb", "%-1", "a.md%-2", "%25", "\u{e9}_/_%_",
    ] {
        let path = trash_path_at("/n", rel, MS);
        let expected =
            if rel.starts_with('/') { rel.to_string() } else { format!("/n/{}", rel) };
        assert_eq!(restore_target("/n", &path), Ok(expected.clone()));
        let numbered = path.replace("20240101-000000", "20240101-000000.17");
        assert_eq!(restore_target("/n", &numbered), Ok(expected));
        assert!(!path["/n/.aanote-trash/".len()..].contains('/'));
    }
    assert_eq!(
        trash_path_at("/n", "my__note.md", MS),
        "/n/.aanote-trash/20240101-000000%-my%5F_note.md"
    );
    // Names carry escapes only where underscores do not tell.
    for (rel, name) in [
        ("a/b.md", "a__b.md"),
        ("a/_b.md", "a___b.md"),
        ("50%.md", "50%.md"),
        ("a%25b.md", "a%25b.md"),
        ("x/a%5F.md", "x__a%5F.md"),
    ] {
        let path = format!("/n/.aanote-trash/20240101-000000-{}", name);
        assert_eq!(trash_path_at("/n", rel, MS), path);
        assert_eq!(restore_target("/n", &path), Ok(format!("/n/{}", rel)));
    }
}

#[test]
fn other_names_are_refused() {
    assert_eq!(restore_target("/n", "/n/t/.."), Err("Invalid trash path".to_string()));
    assert_eq!(restore_target("/n", "/n/t/20240101"), Err("Invalid trash filename".to_string()));
    assert_eq!(
        restore_target("/n", "/n/t/20240101-000000"),
        Err("Invalid trash filename".to_string())
    );
    match restore_from_trash("/n", "/").pending() {
        FileStep::Finish { outcome } => {
            assert_eq!(outcome, Err("Invalid trash path".to_string()))
        }
        other => panic!("unexpected {:?}", other),
    }
}

fn at_name(mut t: Trashing, taken: usize) -> Trashing {
    t.advance(Answer::Exists(true));
    t.advance(Answer::Outcome(Ok(())));
    for _ in 0..taken {
        t.advance(Answer::Exists(true));
    }
    t
}

#[test]
fn trashing_tries_names_in_turn() {
    let t = at_name(move_to_trash_at("/n", "a.md", MS), 0);
    match t.pending() {
        FileStep::Probe { path } => assert_eq!(path, "/n/.aanote-trash/20240101-000000-a.md"),
        other => panic!("unexpected {:?}", other),
    }
    let mut t = at_name(move_to_trash_at("/n", "a.md", MS), 2);
    match t.pending() {
        FileStep::Probe { path } => {
            assert_eq!(path, "/n/.aanote-trash/20240101-000000.2-a.md")
        }
        other => panic!("unexpected {:?}", other),
    }
    t.advance(Answer::Exists(false));
    match t.pending() {
        FileStep::Rename { from, to } => {
            assert_eq!(from, "/n/a.md");
            assert_eq!(to, "/n/.aanote-trash/20240101-000000.2-a.md");
        }
        other => panic!("unexpected {:?}", other),
    }
    t.advance(Answer::Outcome(Err("busy".to_string())));
    match t.pending() {
        FileStep::Finish { outcome } => {
            assert_eq!(outcome, Err("Failed to move a.md to trash: busy".to_string()))
        }
        other => panic!("unexpected {:?}", other),
    }
}

#[test]
fn trashing_reports_that_the_trash_cannot_be_made() {
    let mut t = move_to_trash_at("/n", "a.md", MS);
    t.advance(Answer::Exists(true));
    t.advance(Answer::Outcome(Err("read-only".to_string())));
    match t.pending() {
        FileStep::Finish { outcome } => {
            assert_eq!(outcome, Err("Failed to create trash dir: read-only".to_string()))
        }
        other => panic!("unexpected {:?}", other),
    }
}

#[test]
fn restoring_reports_failures() {
    let path = trash_path_at("/n", "a/b.md", MS);
    let mut r = restore_from_trash("/n", &path);
    match r.pending() {
        FileStep::MakeDir { dir } => assert_eq!(dir, "/n/a"),
        other => panic!("unexpected {:?}", other),
    }
    r.advance(Answer::Outcome(Err("full".to_string())));
    match r.pending() {
        FileStep::Finish { outcome } => {
            assert_eq!(outcome, Err("Failed to create dir: full".to_string()))
        }
        other => panic!("unexpected {:?}", other),
    }
    let mut r = restore_from_trash("/n", &path);
    r.advance(Answer::Outcome(Ok(())));
    r.advance(Answer::Exists(false));
    r.advance(Answer::Outcome(Err("gone".to_string())));
    match r.pending() {
        FileStep::Finish { outcome } => {
            assert_eq!(outcome, Err("Failed to restore: gone".to_string()))
        }
        other => panic!("unexpected {:?}", other),
    }
}

#[test]
fn the_trash_keeps_thirty_days() {
    let day = 86_400_000i64;
    let name = |ms: i64| trash_path_at("", "a.md", ms).rsplit('/').next().unwrap().to_string();
    assert_eq!(cutoff_at(MS), "20231202-000000");
    let names = vec![
        name(MS - 30 * day - 1000),
        name(MS - 30 * day),
        name(MS - 30 * day - 1),
        name(MS),
        "short".to_string(),
        "20231201-235959".to_string(),
    ];
    assert_eq!(
        purge_at("/n", &names, MS),
        vec![
            "/n/.aanote-trash/20231201-235959-a.md".to_string(),
            "/n/.aanote-trash/20231201-235959-a.md".to_string(),
            "/n/.aanote-trash/20231201-235959".to_string(),
        ]
    );
    assert!(expired("20231201-235959-x", "20231202-000000"));
    assert!(!expired("20231202-000000-x", "20231202-000000"));
    assert!(!expired("2023", "20231202-000000"));
    // A name in any script is told by its first fifteen bytes.
    assert!(expired("20000101-00000\u{e9}", "20231202-000000"));
    assert!(expired("20000101-0000\u{e9}", "20231202-000000"));
    assert!(!expired("20000101-000\u{e9}", "20231202-000000"));
    assert!(!expired("20231202-0000\u{e9}", "20231202-000000"));
    assert!(!expired("\u{65e5}\u{8a18}-2023-01-01-notes", "20231202-000000"));
    assert!(!expired("\u{65e5}\u{8a18}", "20231202-000000"));
    assert_eq!(
        purge_old_trash("/n", &vec!["20000101-000000-a.md".to_string(), name(MS + 900_000 * day)]),
        vec!["/n/.aanote-trash/20000101-000000-a.md".to_string()]
    );
}

#[test]
fn emptying_counts_what_was_deleted() {
    assert_eq!(empty_trash(&Emptying::NoTrash), Ok(0));
    assert_eq!(empty_trash(&Emptying::Tried { done: vec![true, false, true] }), Ok(2));
    assert_eq!(
        empty_trash(&Emptying::Unlisted { cause: "x".to_string() }),
        Err("Failed to read trash: x".to_string())
    );
    assert_eq!(
        empty_trash(&Emptying::BrokenOff { cause: "x".to_string() }),
        Err("Failed to read entry: x".to_string())
    );
}

#[test]
fn a_remote_copy_is_written_beside_the_note() {
    let mut r = Rescue::begin_at(Side::Remote, "/n", "a/b.c.md", MS + 5);
    match r.pending() {
        FileStep::Probe { path } => {
            assert_eq!(path, "/n/a/b.c (remote conflict 20240101-000000005).md")
        }
        other => panic!("unexpected {:?}", other),
    }
    r.advance(Answer::Exists(true));
    r.advance(Answer::Exists(false));
    match r.pending() {
        FileStep::Write { to } => {
            assert_eq!(to, "/n/a/b.c (remote conflict 20240101-000000005-2).md")
        }
        other => panic!("unexpected {:?}", other),
    }
    r.advance(Answer::Outcome(Err("full".to_string())));
    match r.pending() {
        FileStep::Finish { outcome } => assert_eq!(
            outcome,
            Err("Failed to save a conflict copy of /n/a/b.c.md: full".to_string())
        ),
        other => panic!("unexpected {:?}", other),
    }
}

#[test]
fn there_is_no_copy_of_a_note_that_is_gone() {
    let mut r = Rescue::begin_at(Side::Local, "/n", "a.md", MS);
    match r.pending() {
        FileStep::Probe { path } => assert_eq!(path, "/n/a.md"),
        other => panic!("unexpected {:?}", other),
    }
    r.advance(Answer::Exists(false));
    assert!(matches!(r.pending(), FileStep::Stop));
    let r = Rescue::begin_at(Side::Remote, "/", "", MS);
    match r.pending() {
        FileStep::Finish { outcome } => {
            assert_eq!(outcome, Err("No place for a conflict copy of /".to_string()))
        }
        other => panic!("unexpected {:?}", other),
    }
}

fn failing_at(purpose: Purpose, path: &str, step: usize) -> (Vec<String>, Result<(), String>) {
    let mut w = AtomicWrite::begin(purpose, path);
    let mut log = Vec::new();
    loop {
        match w.pending() {
            WriteStep::MakeDir { dir } => log.push(format!("mkdir {}", dir)),
            WriteStep::Create { tmp } => log.push(format!("create {}", tmp)),
            WriteStep::Write { tmp } => log.push(format!("write {}", tmp)),
            WriteStep::Sync { tmp } => log.push(format!("sync {}", tmp)),
            WriteStep::Rename { tmp, path } => log.push(format!("rename {} {}", tmp, path)),
            WriteStep::Remove { tmp } => log.push(format!("remove {}", tmp)),
            WriteStep::Finish { outcome } => return (log, outcome),
        }
        w.advance(if log.len() == step { Err("no".to_string()) } else { Ok(()) });
    }
}

#[test]
fn a_note_is_written_in_six_steps_at_most() {
    let (log, outcome) = failing_at(Purpose::Note, "/n/a.md", 0);
    assert_eq!(
        log,
        vec![
            "mkdir /n",
            "create /n/.aanote-tmp-a.md",
            "write /n/.aanote-tmp-a.md",
            "sync /n/.aanote-tmp-a.md",
            "rename /n/.aanote-tmp-a.md /n/a.md",
        ]
    );
    assert_eq!(outcome, Ok(()));

    let expected = [
        (1, 1, Err("Failed to create dir /n: no".to_string())),
        (2, 2, Err("Failed to create temp /n/.aanote-tmp-a.md: no".to_string())),
        (3, 3, Err("Failed to write /n/.aanote-tmp-a.md: no".to_string())),
        (4, 5, Ok(())),
        (5, 6, Err("Failed to finalize /n/a.md: no".to_string())),
    ];
    for (step, steps, result) in expected {
        let (log, outcome) = failing_at(Purpose::Note, "/n/a.md", step);
        assert_eq!(log.len(), steps);
        assert_eq!(outcome, result);
    }
    let (log, _) = failing_at(Purpose::Note, "/n/a.md", 5);
    assert_eq!(log[5], "remove /n/.aanote-tmp-a.md");
}

#[test]
fn downloads_and_the_index_are_written_in_fewer_steps() {
    let (log, outcome) = failing_at(Purpose::Download, "a.md", 0);
    assert_eq!(log, vec!["mkdir ", "write .aanote-dl-a.md", "rename .aanote-dl-a.md a.md"]);
    assert_eq!(outcome, Ok(()));
    for step in 1..4 {
        let (log, outcome) = failing_at(Purpose::Download, "a.md", step);
        assert_eq!(log.len(), step);
        assert_eq!(outcome, Err("no".to_string()));
    }
    let (log, _) = failing_at(Purpose::Index, "/n/.sync.json", 0);
    assert_eq!(
        log,
        vec!["write /n/.aanote-sync-tmp", "rename /n/.aanote-sync-tmp /n/.sync.json"]
    );
    for step in 1..3 {
        let (log, outcome) = failing_at(Purpose::Index, "/n/.sync.json", step);
        assert_eq!(log.len(), step);
        assert_eq!(outcome, Ok(()));
    }
    let (log, _) = failing_at(Purpose::Note, "/", 0);
    assert_eq!(log[1], "create ./.aanote-tmp-x");
}

#[test]
fn times_are_split_and_put_together() {
    for ms in [0u64, 1, 999, 1000, 1_704_067_200_123, u64::MAX] {
        let (secs, nanos) = split_millis(ms);
        assert_eq!(millis_of(secs, nanos / 1_000_000), ms);
    }
    assert_eq!(split_millis(1_500), (1, 500_000_000));
}
