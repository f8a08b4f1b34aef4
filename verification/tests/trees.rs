use aanote::listing::Entry;
use aanote::recent::list_recent;
use aanote::search::{
    make_snippet, search_lowered, search_notes, search_notes_snippet, snippet_of, snippets_lowered,
    title_of, Lowered,
};
use aanote::tree::{build_tree, find_node_mut, insert_node, scan_directory, FileNode, Listing};

fn node(path: &str, is_dir: bool) -> FileNode {
    FileNode {
        name: path.rsplit('/').next().unwrap().to_string(),
        path: path.to_string(),
        is_dir,
        children: Vec::new(),
    }
}

fn shape(tree: &[FileNode]) -> String {
    tree.iter()
        .map(|n| {
            if n.is_dir {
                format!("{}[{}]", n.path, shape(&n.children))
            } else {
                n.path.clone()
            }
        })
        .collect::<Vec<String>>()
        .join(" ")
}

fn file(path: &str, content: &str) -> Entry {
    Entry {
        path: path.to_string(),
        name: Some(path.rsplit('/').next().unwrap().to_string()),
        is_dir: false,
        is_file: true,
        len: Some(content.len() as u64),
        mtime: Some(1),
        content: Some(content.to_string()),
    }
}

fn folder(path: &str) -> Entry {
    Entry {
        path: path.to_string(),
        name: Some(path.rsplit('/').next().unwrap().to_string()),
        is_dir: true,
        is_file: false,
        len: None,
        mtime: None,
        content: None,
    }
}

#[test]
fn folders_come_before_notes_at_every_level() {
    let flat = vec![
        node("b/z.md", false),
        node("a.md", false),
        node("b", true),
        node("b/c", true),
        node("b/c/x.md", false),
        node("a", true),
        node("b/a.md", false),
    ];
    assert_eq!(shape(&build_tree(flat)), "a[] b[b/c[b/c/x.md] b/a.md b/z.md] a.md");
}

#[test]
fn entries_without_their_folder_stand_at_the_root() {
    let flat = vec![node("x/y.md", false), node("x/z", true), node("x/z/q.md", false)];
    assert_eq!(shape(&build_tree(flat)), "x/z[x/z/q.md] x/y.md");
}

#[test]
fn a_node_is_found_and_changed_in_place() {
    let mut tree = build_tree(vec![
        node("a", true),
        node("a/b", true),
        node("a/b/c.md", false),
        node("d.md", false),
    ]);
    assert!(find_node_mut(&mut tree, "a/x").is_none());
    let found = find_node_mut(&mut tree, "a/b/c.md").unwrap();
    assert_eq!(found.name, "c.md");
    found.name = "changed".to_string();
    assert_eq!(tree[0].children[0].children[0].name, "changed");
    insert_node(&mut tree, node("a/b/e.md", false));
    insert_node(&mut tree, node("q/e.md", false));
    assert_eq!(shape(&tree), "a[a/b[a/b/c.md a/b/e.md]] d.md q/e.md");
}

#[test]
fn a_scan_leaves_out_what_is_hidden_large_or_no_note() {
    let mut large = file("/n/large.md", "");
    large.len = Some(1_048_577);
    let mut limit = file("/n/limit.md", "");
    limit.len = Some(1_048_576);
    let mut unknown = file("/n/unknown.md", "");
    unknown.len = None;
    let mut nameless = folder("/n/strange");
    nameless.name = None;
    let deep = "/n/1/2/3/4/5/6/7/8/9/a.md";
    let deeper = "/n/1/2/3/4/5/6/7/8/9/10/a.md";
    let es = vec![
        large,
        limit,
        unknown,
        nameless,
        file("/n/a.txt", ""),
        file("/n/.hidden.md", ""),
        folder("/n/.git"),
        file("/n/.git/a.md", ""),
        file("/n/.aanote-trash/20240101-000000-a.md", ""),
        file(deep, ""),
        file(deeper, ""),
    ];
    let tree = scan_directory("/n", &Listing::Entries(es)).unwrap();
    assert_eq!(shape(&tree), "strange[] 1/2/3/4/5/6/7/8/9/a.md limit.md unknown.md");
    assert_eq!(tree[0].name, "unknown");
}

#[test]
fn entries_without_their_folder_stand_at_the_top() {
    let flat = vec![
        node("lost/b.md", false),
        node("a.md", false),
        node("c/d", true),
        node("c/d/e.md", false),
    ];
    assert_eq!(shape(&build_tree(flat)), "c/d[c/d/e.md] a.md lost/b.md");
}

#[test]
fn the_order_of_a_list_does_not_matter() {
    let paths = [("b", true), ("b/c", true), ("b/c/z.md", false), ("a.md", false), ("d/e.md", false)];
    let flat: Vec<FileNode> = paths.iter().map(|(p, d)| node(p, *d)).collect();
    let expected = shape(&build_tree(flat.clone()));
    assert_eq!(expected, "b[b/c[b/c/z.md]] a.md d/e.md");
    for k in 0..flat.len() {
        let mut other = flat.clone();
        other.rotate_left(k);
        assert_eq!(shape(&build_tree(other.clone())), expected);
        other.reverse();
        assert_eq!(shape(&build_tree(other)), expected);
    }
}

#[test]
fn a_scan_names_its_errors() {
    assert_eq!(
        scan_directory("/n", &Listing::Missing).unwrap_err(),
        "Directory does not exist: /n"
    );
    assert_eq!(
        scan_directory("/n", &Listing::NotADirectory).unwrap_err(),
        "Path is not a directory: /n"
    );
    let stray = Listing::Entries(vec![file("/m/a.md", "")]);
    assert_eq!(scan_directory("/n", &stray).unwrap_err(), "prefix not found");
}

#[test]
fn search_ignores_case_and_sorts() {
    let es = vec![
        file("/n/b.md", "Say HELLO"),
        file("/n/a/z.md", "hello"),
        file("/n/c.md", "nothing"),
        file("/n/d.txt", "hello"),
        file("/n/.e.md", "hello"),
        file("/n/É.md", "ÀÉ"),
    ];
    let found = search_notes("/n", Some(&es), "hElLo").unwrap();
    assert_eq!(found, vec!["a/z.md".to_string(), "b.md".to_string()]);
    assert_eq!(search_notes("/n", Some(&es), "àé").unwrap(), vec!["É.md".to_string()]);
    assert_eq!(search_notes("/n", Some(&es), "").unwrap().len(), 4);
    assert_eq!(search_notes("/n", None, "x").unwrap_err(), "Not a directory: /n");
}

#[test]
fn search_on_given_lower_case() {
    let es = vec![file("/n/a.md", "x"), file("/n/b.md", "y")];
    let lows = vec![None, Some("query".to_string())];
    assert_eq!(search_lowered("/n", &es, &lows, "er"), vec!["b.md".to_string()]);
    assert!(search_lowered("/n", &es, &lows, "z").is_empty());
}

#[test]
fn hits_by_name_follow_hits_by_content() {
    let es = vec![
        file("/n/plan.md", "\n \r\nfirst line\r\nthe plan"),
        file("/n/Plans.md", "  \n\nNext year \nmore"),
        file("/n/empty-plan.md", ""),
        file("/n/other.md", "x"),
        file("/n/.aanote-trash/20240101-000000-plan.md", "plan"),
    ];
    let hits = search_notes_snippet("/n", Some(&es), "PLAN").unwrap();
    let shown: Vec<(&str, &str)> =
        hits.iter().map(|h| (h.path.as_str(), h.snippet.as_str())).collect();
    assert_eq!(
        shown,
        vec![
            ("Plans.md", "Next year "),
            ("empty-plan.md", ""),
            ("plan.md", "first line  the plan"),
        ]
    );
    assert!(search_notes_snippet("/n", Some(&es), "").unwrap().is_empty());
    assert_eq!(search_notes_snippet("/n", None, "x").unwrap_err(), "Not a directory: /n");
}

#[test]
fn titles_are_cut() {
    let long = "x".repeat(200);
    assert_eq!(title_of(&format!("\n{}\n", long)), "x".repeat(120));
    assert_eq!(title_of("\r\n\t\n"), "");
    assert_eq!(title_of("one\r"), "one\r");
    assert_eq!(title_of("one\r\ntwo"), "one");
}

#[test]
fn snippets_show_a_window() {
    let content = format!("{}NEEDLE{}", "a".repeat(100), "b".repeat(100));
    let s = make_snippet(&content, 100, 6);
    assert_eq!(s, format!("…{}NEEDLE{}…", "a".repeat(60), "b".repeat(60)));
    assert_eq!(s.chars().count(), 128);

    // Cut at the limit.
    let s = make_snippet(&content, 100, 40);
    assert_eq!(s.chars().count(), 140);
    assert!(s.starts_with('…') && !s.ends_with('…'));

    // Short texts are shown whole, on one line.
    assert_eq!(make_snippet(" a\nb\r\nc ", 1, 1), "a b  c");
    assert_eq!(make_snippet("", 0, 0), "");
    assert_eq!(make_snippet("abc", 99, usize::MAX), "abc");
}

#[test]
fn snippets_stay_around_the_match_beyond_ascii() {
    let content = format!("{}NEEDLE{}", "é".repeat(100), "ü".repeat(100));
    let s = make_snippet(&content, 200, 6);
    assert_eq!(s, format!("…{}NEEDLE{}…", "é".repeat(60), "ü".repeat(60)));
}

#[test]
fn snippets_stay_around_the_match_where_case_changes_the_width() {
    // In lower case, each of the first letters is two characters, of three bytes.
    let content = format!("{}needle{}", "\u{130}".repeat(70), "x".repeat(200));
    let es = vec![file("/n/a.md", &content)];
    let hits = search_notes_snippet("/n", Some(&es), "Needle").unwrap();
    assert_eq!(
        hits[0].snippet,
        format!("…{}needle{}…", "\u{130}".repeat(60), "x".repeat(60))
    );
    // The other way round: three bytes become one.
    let content = format!("{}needle{}", "\u{212a}".repeat(70), "x".repeat(200));
    let hits = search_notes_snippet("/n", Some(&vec![file("/n/a.md", &content)]), "needle");
    assert_eq!(
        hits.unwrap()[0].snippet,
        format!("…{}needle{}…", "\u{212a}".repeat(60), "x".repeat(60))
    );
}

#[test]
fn snippets_on_given_lower_case() {
    let low = |text: &str, widths: &[usize]| Lowered {
        text: text.to_string(),
        widths: widths.to_vec(),
    };
    let content = format!("AB{}", "z".repeat(100));
    let wide = low("aaabzz", &[3, 1, 1, 1]);
    // The match begins in what the second character gave rise to.
    assert_eq!(snippet_of(&content, &wide, "bz", 2), Some(format!("AB{}…", "z".repeat(61))));
    assert_eq!(snippet_of(&content, &wide, "aab", 3), Some(format!("AB{}…", "z".repeat(61))));
    assert_eq!(snippet_of(&content, &wide, "q", 1), None);
    // A match beyond every character is shown at the end.
    let narrow = low("aaabzz", &[1]);
    assert_eq!(snippet_of("Axyz", &narrow, "zz", 2), Some("Axyz".to_string()));
    let es = vec![file("/n/a.md", "Text"), file("/n/b.md", "Q")];
    let hits = snippets_lowered(
        "/n",
        &es,
        &vec![Some(low("text", &[1, 1, 1, 1])), None],
        &vec!["a.md".to_string(), "b.md".to_string()],
        "b",
        1,
    );
    assert_eq!(hits.len(), 1);
    assert_eq!((hits[0].path.as_str(), hits[0].snippet.as_str()), ("b.md", "Q"));
}

#[test]
fn recent_notes_are_limited_and_ordered() {
    let mut es = Vec::new();
    for i in 0..15u64 {
        let mut f = file(&format!("/n/{:02}.md", i), "");
        f.mtime = Some(i % 5);
        es.push(f);
    }
    let mut unknown = file("/n/unknown.md", "");
    unknown.mtime = None;
    es.push(unknown);
    es.push(file("/n/x.txt", ""));
    let mut trashed = file("/n/.aanote-trash/t.md", "");
    trashed.mtime = Some(99);
    es.push(trashed);

    let names = |limit: Option<usize>| -> Vec<String> {
        list_recent("/n", Some(&es), limit).unwrap().into_iter().map(|r| r.path).collect()
    };
    assert_eq!(
        names(None),
        vec![
            "04.md", "09.md", "14.md", "03.md", "08.md", "13.md", "02.md", "07.md", "12.md", "01.md"
        ]
    );
    assert_eq!(names(Some(2)), vec!["04.md", "09.md"]);
    assert_eq!(names(Some(99)).len(), 15);
    assert!(names(Some(0)).is_empty());
    assert!(list_recent("/n", None, None).unwrap().is_empty());
}
