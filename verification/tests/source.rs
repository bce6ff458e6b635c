use logseq_view::source::{FakeGraphSource, GraphSource};

fn join(dir: &str, name: &str) -> String {
    format!("{}/{}", dir, name)
}

#[test]
fn test_journals_dir_sorts_descending() {
    let mut source = FakeGraphSource::new();

    let journals_dir = String::from("/journals");
    let entries = vec![
        (String::from("/journals/2026_01_01.md"), false, ""),
        (String::from("/journals/2026_06_30.md"), false, ""),
        (String::from("/journals/2026_03_15.md"), false, ""),
    ];

    source.add_dir_entries(journals_dir.clone(), entries);

    let children = source.children(&journals_dir).unwrap();
    let names: Vec<&str> = children.iter().map(|e| e.name.as_str()).collect();

    assert_eq!(names, vec!["2026_06_30", "2026_03_15", "2026_01_01"]);
}

#[test]
fn test_pages_dir_sorts_ascending() {
    let mut source = FakeGraphSource::new();

    let pages_dir = String::from("/pages");
    let entries = vec![
        (String::from("/pages/zzz.md"), false, ""),
        (String::from("/pages/aaa.md"), false, ""),
        (String::from("/pages/mmm.md"), false, ""),
    ];

    source.add_dir_entries(pages_dir.clone(), entries);

    let children = source.children(&pages_dir).unwrap();
    let names: Vec<&str> = children.iter().map(|e| e.name.as_str()).collect();

    assert_eq!(names, vec!["aaa", "mmm", "zzz"]);
}

#[test]
fn test_non_journals_dir_sorts_ascending() {
    let mut source = FakeGraphSource::new();

    let custom_dir = String::from("/custom");
    let entries = vec![
        (String::from("/custom/file_c.md"), false, ""),
        (String::from("/custom/file_a.md"), false, ""),
        (String::from("/custom/file_b.md"), false, ""),
    ];

    source.add_dir_entries(custom_dir.clone(), entries);

    let children = source.children(&custom_dir).unwrap();
    let names: Vec<&str> = children.iter().map(|e| e.name.as_str()).collect();

    assert_eq!(names, vec!["file_a", "file_b", "file_c"]);
}

#[test]
fn fake_graph_source_write_then_read_round_trips() {
    let mut source = FakeGraphSource::new();
    let path = String::from("/graph/pages/foo.md");
    source.add_file(path.clone(), "original content");

    source.write(&path, "new content").unwrap();

    assert_eq!(source.read(&path).unwrap(), "new content");
}

#[test]
fn fake_graph_source_write_creates_new_file() {
    let mut source = FakeGraphSource::new();
    let path = String::from("/graph/pages/new.md");

    source.write(&path, "hello").unwrap();

    assert_eq!(source.read(&path).unwrap(), "hello");
}

#[test]
fn all_files_recurses_into_nested_dirs() {
    let root = String::from("/graph");
    let pages = join(&root, "pages");
    let nested = join(&pages, "sub");

    let mut source = FakeGraphSource::new();
    source.add_dir_entries(
        root.clone(),
        vec![
            (pages.clone(), true, ""),
            (join(&root, "readme.md"), false, ""),
        ],
    );
    source.add_dir_entries(
        pages.clone(),
        vec![
            (join(&pages, "apple.md"), false, ""),
            (nested.clone(), true, ""),
        ],
    );
    source.add_dir_entries(nested.clone(), vec![(join(&nested, "child.md"), false, "")]);

    let mut files = source.all_files(&root).unwrap();
    files.sort();

    assert_eq!(
        files,
        vec![
            join(&pages, "apple.md"),
            join(&nested, "child.md"),
            join(&root, "readme.md"),
        ]
    );
}

#[test]
fn all_files_empty_root_returns_empty() {
    let source = FakeGraphSource::new();
    let files = source.all_files(&String::from("/graph")).unwrap();
    assert!(files.is_empty());
}
