use logseq_view::action::Action;
use logseq_view::app::{block_range_at, App, Effect, FileItem, Focus};
use logseq_view::parser::{ParsedLine, Segment, TaskState};
use logseq_view::source::{url_decode, FakeGraphSource};

fn join(dir: &str, name: &str) -> String {
    format!("{}/{}", dir, name)
}

fn make_app() -> App<FakeGraphSource> {
    App::new(String::new(), FakeGraphSource::new()).unwrap()
}

fn dummy_lines(n: usize) -> Vec<ParsedLine> {
    (0..n)
        .map(|_| ParsedLine {
            indent: 0,
            is_bullet: false,
            task: None,
            segments: Vec::new(),
            ..Default::default()
        })
        .collect()
}

fn long_line(len: usize) -> ParsedLine {
    ParsedLine {
        indent: 0,
        is_bullet: false,
        task: None,
        segments: vec![Segment::Plain("x".repeat(len))],
        ..Default::default()
    }
}

fn row_counts(lines: &[ParsedLine], width: usize) -> Vec<usize> {
    lines
        .iter()
        .map(|l| logseq_view::parser::line_row_count(l, width))
        .collect()
}

#[test]
fn url_decode_percent_encoded_space() {
    assert_eq!(url_decode("hello%20world"), "hello world");
}

#[test]
fn url_decode_invalid_percent_left_as_is() {
    assert_eq!(url_decode("hello%2"), "hello%2");
    assert_eq!(url_decode("hello%ZZ"), "hello%ZZ");
}

#[test]
fn url_decode_utf8_multibyte() {
    assert_eq!(url_decode("%E3%81%82"), "あ");
}

#[test]
fn url_decode_mixed_encoded_and_plain() {
    assert_eq!(
        url_decode("file%20name%20with%20spaces.txt"),
        "file name with spaces.txt"
    );
}

#[test]
fn browser_scroll_selected_before_offset_clamps_up() {
    let mut app = make_app();
    app.browser_offset = 5;
    app.browser_selected = 3;
    app.clamp_browser_scroll(10);
    assert_eq!(app.browser_offset, 3);
}

#[test]
fn browser_scroll_selected_past_window_slides_down() {
    let mut app = make_app();
    app.browser_offset = 0;
    app.browser_selected = 10;
    app.clamp_browser_scroll(5);
    assert_eq!(app.browser_offset, 6);
}

#[test]
fn browser_scroll_selected_within_window_unchanged() {
    let mut app = make_app();
    app.browser_offset = 2;
    app.browser_selected = 4;
    app.clamp_browser_scroll(10);
    assert_eq!(app.browser_offset, 2);
}

#[test]
fn app_content_scroll_clamped_when_past_end() {
    let mut app = make_app();
    app.content_lines = dummy_lines(20);
    app.content_scroll = 15;
    let rc = row_counts(&app.content_lines, 80);
    app.clamp_content_scroll(10, &rc);
    assert_eq!(app.content_scroll, 10);
}

#[test]
fn app_content_scroll_unchanged_when_all_lines_fit() {
    let mut app = make_app();
    app.content_lines = dummy_lines(5);
    app.content_scroll = 0;
    let rc = row_counts(&app.content_lines, 80);
    app.clamp_content_scroll(10, &rc);
    assert_eq!(app.content_scroll, 0);
}

#[test]
fn app_content_scroll_already_at_end_unchanged() {
    let mut app = make_app();
    app.content_lines = dummy_lines(20);
    app.content_scroll = 10;
    let rc = row_counts(&app.content_lines, 80);
    app.clamp_content_scroll(10, &rc);
    assert_eq!(app.content_scroll, 10);
}

#[test]
fn content_scroll_pulled_back_further_when_a_line_wraps_into_multiple_rows() {
    let mut app = make_app();
    let mut lines = dummy_lines(20);
    lines[17] = long_line(80); // wraps to 4 rows at width 20
    app.content_lines = lines;
    app.content_scroll = 15;
    let rc = row_counts(&app.content_lines, 20);
    app.clamp_content_scroll(6, &rc);
    assert_eq!(app.content_scroll, 15);

    app.content_scroll = 19;
    let rc = row_counts(&app.content_lines, 20);
    app.clamp_content_scroll(6, &rc);
    assert_eq!(app.content_scroll, 17);
}

#[test]
fn content_cursor_scroll_cursor_before_offset_clamps_up() {
    let mut app = make_app();
    app.content_lines = dummy_lines(10);
    app.content_scroll = 5;
    app.content_cursor = 3;
    let rc = row_counts(&app.content_lines, 80);
    app.clamp_content_cursor_scroll(10, &rc);
    assert_eq!(app.content_scroll, 3);
}

#[test]
fn content_cursor_scroll_cursor_past_window_slides_down() {
    let mut app = make_app();
    app.content_lines = dummy_lines(11);
    app.content_scroll = 0;
    app.content_cursor = 10;
    let rc = row_counts(&app.content_lines, 80);
    app.clamp_content_cursor_scroll(5, &rc);
    assert_eq!(app.content_scroll, 6);
}

#[test]
fn content_cursor_scroll_cursor_within_window_unchanged() {
    let mut app = make_app();
    app.content_lines = dummy_lines(10);
    app.content_scroll = 2;
    app.content_cursor = 4;
    let rc = row_counts(&app.content_lines, 80);
    app.clamp_content_cursor_scroll(10, &rc);
    assert_eq!(app.content_scroll, 2);
}

#[test]
fn content_cursor_scroll_slides_further_when_a_line_between_wraps() {
    let mut app = make_app();
    let mut lines = dummy_lines(10);
    lines[3] = long_line(80); // wraps to 4 rows at width 20
    app.content_lines = lines;
    app.content_scroll = 0;
    app.content_cursor = 6;
    let rc = row_counts(&app.content_lines, 20);
    app.clamp_content_cursor_scroll(6, &rc);
    assert_eq!(app.content_scroll, 4);
}

#[test]
fn content_cursor_scroll_handles_single_line_taller_than_viewport() {
    let mut app = make_app();
    let mut lines = dummy_lines(5);
    lines[2] = long_line(200); // wraps to 10 rows at width 20
    app.content_lines = lines;
    app.content_scroll = 0;
    app.content_cursor = 2;
    let rc = row_counts(&app.content_lines, 20);
    app.clamp_content_cursor_scroll(6, &rc);
    assert_eq!(app.content_scroll, 2);
}

fn lines_with_indents(indents: &[usize]) -> Vec<ParsedLine> {
    indents
        .iter()
        .map(|&indent| ParsedLine {
            indent,
            is_bullet: true,
            task: None,
            segments: Vec::new(),
            ..Default::default()
        })
        .collect()
}

#[test]
fn block_range_at_single_line_file_is_its_own_block() {
    let lines = lines_with_indents(&[0]);
    assert_eq!(block_range_at(&lines, 0), (0, 1));
}

#[test]
fn block_range_at_leaf_among_siblings() {
    let lines = lines_with_indents(&[0, 0, 0]);
    assert_eq!(block_range_at(&lines, 0), (0, 1));
    assert_eq!(block_range_at(&lines, 1), (1, 2));
    assert_eq!(block_range_at(&lines, 2), (2, 3));
}

#[test]
fn block_range_at_single_level_children() {
    let lines = lines_with_indents(&[0, 1, 1, 0]);
    assert_eq!(block_range_at(&lines, 0), (0, 3));
    assert_eq!(block_range_at(&lines, 1), (1, 2));
    assert_eq!(block_range_at(&lines, 2), (2, 3));
    assert_eq!(block_range_at(&lines, 3), (3, 4));
}

#[test]
fn block_range_at_nested_multi_level() {
    let lines = lines_with_indents(&[0, 1, 2, 1, 0]);
    assert_eq!(block_range_at(&lines, 0), (0, 4));
    assert_eq!(block_range_at(&lines, 1), (1, 3));
    assert_eq!(block_range_at(&lines, 2), (2, 3));
    assert_eq!(block_range_at(&lines, 3), (3, 4));
    assert_eq!(block_range_at(&lines, 4), (4, 5));
}

#[test]
fn block_range_at_last_line_with_children_extends_to_end() {
    let lines = lines_with_indents(&[0, 1, 1]);
    assert_eq!(block_range_at(&lines, 0), (0, 3));
}

#[test]
fn block_range_at_out_of_bounds_returns_empty_range() {
    let lines = lines_with_indents(&[0, 1]);
    assert_eq!(block_range_at(&lines, 5), (5, 5));
}

#[test]
fn block_range_at_empty_file_returns_empty_range() {
    let lines: Vec<ParsedLine> = Vec::new();
    assert_eq!(block_range_at(&lines, 0), (0, 0));
}

#[test]
fn content_down_advances_cursor_through_nested_lines() {
    let mut app = make_app();
    app.content_lines = lines_with_indents(&[0, 1, 1, 0]);
    app.content_cursor = 0;

    app.content_down(1);
    assert_eq!(app.content_cursor, 1);
    app.content_down(1);
    assert_eq!(app.content_cursor, 2);
    app.content_down(1);
    assert_eq!(app.content_cursor, 3);
}

#[test]
fn content_down_clamped_at_last_line() {
    let mut app = make_app();
    app.content_lines = lines_with_indents(&[0, 1]);
    app.content_cursor = 1;

    app.content_down(5);
    assert_eq!(app.content_cursor, 1);
}

#[test]
fn content_up_retreats_cursor() {
    let mut app = make_app();
    app.content_lines = lines_with_indents(&[0, 1, 1, 0]);
    app.content_cursor = 3;

    app.content_up(1);
    assert_eq!(app.content_cursor, 2);
    app.content_up(1);
    assert_eq!(app.content_cursor, 1);
}

#[test]
fn content_up_clamped_at_zero() {
    let mut app = make_app();
    app.content_lines = lines_with_indents(&[0, 1]);
    app.content_cursor = 0;

    app.content_up(5);
    assert_eq!(app.content_cursor, 0);
}

#[test]
fn content_top_moves_cursor_to_first_block() {
    let mut app = make_app();
    app.content_lines = dummy_lines(10);
    app.content_cursor = 7;

    app.content_top();
    assert_eq!(app.content_cursor, 0);
}

#[test]
fn content_bottom_moves_cursor_to_last_block() {
    let mut app = make_app();
    app.content_lines = dummy_lines(10);
    app.content_cursor = 0;

    app.content_bottom();
    assert_eq!(app.content_cursor, 9);
}

#[test]
fn reload_current_file_clamps_cursor_too() {
    let mut source = FakeGraphSource::new();
    let path = String::from("/graph/pages/foo.md");
    source.add_file(path.clone(), "line one\nline two\n");

    let mut app = App::new(String::from("/graph"), source).unwrap();
    app.current_file = Some(path);
    app.content_lines = dummy_lines(50);
    app.content_cursor = 40;

    app.reload_current_file().unwrap();

    assert_eq!(app.content_lines.len(), 2);
    assert_eq!(app.content_cursor, 1);
}

#[test]
fn content_search_commit_moves_cursor_to_match() {
    let mut app = make_app();
    app.focus = Focus::Content;
    app.current_file = Some(String::from("/test/file.md"));
    app.content_lines = vec![
        ParsedLine {
            indent: 0,
            is_bullet: false,
            task: None,
            segments: vec![Segment::Plain("first line".to_string())],
            ..Default::default()
        },
        ParsedLine {
            indent: 0,
            is_bullet: false,
            task: None,
            segments: vec![Segment::Plain("target line".to_string())],
            ..Default::default()
        },
    ];
    app.content_cursor = 0;

    app.update(Action::SearchStart).unwrap();
    app.update(Action::SearchInput('t')).unwrap();
    app.update(Action::SearchInput('a')).unwrap();
    app.update(Action::SearchInput('r')).unwrap();
    app.update(Action::SearchCommit).unwrap();

    assert_eq!(app.content_cursor, 1);
}

#[test]
fn content_search_cancel_restores_cursor() {
    let mut app = make_app();
    app.focus = Focus::Content;
    app.current_file = Some(String::from("/test/file.md"));
    app.content_lines = dummy_lines(10);
    app.content_cursor = 5;
    app.content_scroll = 5;

    app.update(Action::SearchStart).unwrap();
    app.content_cursor = 8;

    app.update(Action::SearchCancel).unwrap();
    assert_eq!(app.content_cursor, 5);
}

#[test]
fn build_file_tree_includes_dirs_and_markdown() {
    let root = String::from("/test");

    let mut source = FakeGraphSource::new();
    source.add_dir_entries(
        root.clone(),
        vec![
            (join(&root, "note.md"), false, "# Note"),
            (join(&root, "subfolder"), true, ""),
        ],
    );

    let mut app = App::new(root.clone(), source).unwrap();
    app.build_file_tree().unwrap();

    let names: Vec<_> = app.file_items.iter().map(|i| i.name.as_str()).collect();
    assert!(names.contains(&"note"));
    assert!(names.contains(&"subfolder"));
    assert!(!names.contains(&"ignore"));
    assert!(!names.contains(&".hidden"));
    assert!(!names.contains(&"bak"));
}

#[test]
fn expand_dir_inserts_children_with_correct_depth() {
    let root = String::from("/test");
    let dir1 = join(&root, "dir1");

    let mut source = FakeGraphSource::new();
    source.add_dir_entries(root.clone(), vec![(dir1.clone(), true, "")]);
    source.add_dir_entries(
        dir1.clone(),
        vec![(join(&dir1, "child.md"), false, "content")],
    );

    let mut app = App::new(root.clone(), source).unwrap();
    app.build_file_tree().unwrap();
    assert_eq!(app.file_items.len(), 1);
    assert_eq!(app.file_items[0].name, "dir1");
    assert_eq!(app.file_items[0].depth, 0);

    app.expand_dir(0, &dir1).unwrap();

    assert_eq!(app.file_items.len(), 2);
    assert_eq!(app.file_items[0].name, "dir1");
    assert_eq!(app.file_items[0].depth, 0);
    assert_eq!(app.file_items[1].name, "child");
    assert_eq!(app.file_items[1].depth, 1);
}

#[test]
fn collapse_dir_drains_children() {
    let mut app = make_app();
    app.file_items = vec![
        FileItem {
            path: String::from("a"),
            name: "a".to_string(),
            depth: 0,
            is_dir: true,
            is_expanded: true,
        },
        FileItem {
            path: String::from("b"),
            name: "b".to_string(),
            depth: 1,
            is_dir: false,
            is_expanded: false,
        },
        FileItem {
            path: String::from("c"),
            name: "c".to_string(),
            depth: 1,
            is_dir: false,
            is_expanded: false,
        },
        FileItem {
            path: String::from("d"),
            name: "d".to_string(),
            depth: 0,
            is_dir: true,
            is_expanded: false,
        },
    ];

    app.collapse_dir(0);

    assert_eq!(app.file_items.len(), 2);
    assert_eq!(app.file_items[0].name, "a");
    assert_eq!(app.file_items[1].name, "d");
}

#[test]
fn collapse_or_jump_parent_jumps_to_parent() {
    let mut app = make_app();
    app.file_items = vec![
        FileItem {
            path: String::from("parent"),
            name: "parent".to_string(),
            depth: 0,
            is_dir: true,
            is_expanded: true,
        },
        FileItem {
            path: String::from("child"),
            name: "child".to_string(),
            depth: 1,
            is_dir: false,
            is_expanded: false,
        },
    ];

    app.browser_selected = 1;
    app.collapse_or_jump_parent();

    assert_eq!(app.browser_selected, 0);
}

#[test]
fn update_quit_returns_true() {
    let mut app = make_app();
    let should_quit = app.update(Action::Quit).unwrap().quit;
    assert!(should_quit);
}

#[test]
fn reload_current_file_reparses_and_clamps_scroll() {
    let mut source = FakeGraphSource::new();
    let path = String::from("/graph/pages/foo.md");
    source.add_file(path.clone(), "line one\nline two\n");

    let mut app = App::new(String::from("/graph"), source).unwrap();
    app.current_file = Some(path);
    app.content_lines = dummy_lines(50);
    app.content_scroll = 40;

    app.reload_current_file().unwrap();

    assert_eq!(app.content_lines.len(), 2);
    assert_eq!(app.content_scroll, 1); // clamped to new last-line index
}

#[test]
fn reload_current_file_without_current_file_is_noop() {
    let mut app = make_app();
    app.content_lines = dummy_lines(5);
    app.content_scroll = 3;

    app.reload_current_file().unwrap();

    assert_eq!(app.content_lines.len(), 5);
    assert_eq!(app.content_scroll, 3);
}

#[test]
fn update_edit_current_page_with_file_returns_launch_editor_effect() {
    let mut app = make_app();
    app.current_file = Some(String::from("/graph/pages/foo.md"));

    let update = app.update(Action::EditCurrentPage).unwrap();

    assert!(!update.quit);
    assert_eq!(
        update.effects,
        vec![Effect::LaunchEditor {
            path: String::from("/graph/pages/foo.md")
        }]
    );
}

#[test]
fn update_edit_current_page_without_file_returns_no_effect() {
    let mut app = make_app();
    app.current_file = None;

    let update = app.update(Action::EditCurrentPage).unwrap();

    assert!(!update.quit);
    assert!(update.effects.is_empty());
}

#[test]
fn update_edit_current_block_returns_edit_block_effect_with_computed_range() {
    let mut app = make_app();
    app.current_file = Some(String::from("/graph/pages/foo.md"));
    app.content_lines = lines_with_indents(&[0, 1, 1, 0]);
    for (i, line) in app.content_lines.iter_mut().enumerate() {
        line.src_start = i;
        line.src_end = i + 1;
    }
    app.content_cursor = 0;

    let update = app.update(Action::EditCurrentBlock).unwrap();

    assert!(!update.quit);
    assert_eq!(
        update.effects,
        vec![Effect::EditBlock {
            path: String::from("/graph/pages/foo.md"),
            raw_start: 0,
            raw_end: 3,
        }]
    );
}

#[test]
fn update_edit_current_block_without_file_returns_no_effect() {
    let mut app = make_app();
    app.current_file = None;
    app.content_lines = dummy_lines(3);

    let update = app.update(Action::EditCurrentBlock).unwrap();

    assert!(!update.quit);
    assert!(update.effects.is_empty());
}

#[test]
fn update_edit_current_block_with_empty_content_returns_no_effect() {
    let mut app = make_app();
    app.current_file = Some(String::from("/graph/pages/foo.md"));
    app.content_lines = Vec::new();

    let update = app.update(Action::EditCurrentBlock).unwrap();

    assert!(!update.quit);
    assert!(update.effects.is_empty());
}

#[test]
fn current_block_src_range_uses_first_and_last_line_spans() {
    let mut app = make_app();
    app.current_file = Some(String::from("/graph/pages/foo.md"));
    app.content_lines = lines_with_indents(&[0, 1, 1, 0]);
    app.content_lines[1].src_start = 1;
    app.content_lines[1].src_end = 6;
    app.content_lines[2].src_start = 6;
    app.content_lines[2].src_end = 7;
    app.content_lines[0].src_start = 0;
    app.content_lines[0].src_end = 1;
    app.content_cursor = 0;

    let range = app.current_block_src_range();
    assert_eq!(range, Some((0, 7)));
}

#[test]
fn current_block_src_range_none_without_current_file() {
    let mut app = make_app();
    app.current_file = None;
    app.content_lines = dummy_lines(3);

    assert_eq!(app.current_block_src_range(), None);
}

#[test]
fn current_block_src_range_none_when_content_empty() {
    let mut app = make_app();
    app.current_file = Some(String::from("/graph/pages/foo.md"));
    app.content_lines = Vec::new();

    assert_eq!(app.current_block_src_range(), None);
}

#[test]
fn block_edit_round_trip_replaces_only_block_raw_range() {
    let mut source = FakeGraphSource::new();
    let path = String::from("/graph/pages/foo.md");
    source.add_file(
        path.clone(),
        "- A\n  - A1\n  - A2\n- B\n- C\n", // block "A" = raw lines 0..3
    );

    let mut app = App::new(String::from("/graph"), source).unwrap();
    app.load_file(&path).unwrap();
    app.content_cursor = 0; // on block A

    let (raw_start, raw_end) = app.current_block_src_range().unwrap();
    assert_eq!((raw_start, raw_end), (0, 3));

    let original = app.read_file(&path).unwrap();
    let new_content =
        logseq_view::parser::splice_raw_lines(&original, raw_start, raw_end, "- A EDITED\n");
    app.write_file(&path, &new_content).unwrap();
    app.reload_current_file().unwrap();

    assert_eq!(
        app.read_file(&path).unwrap(),
        "- A EDITED\n- B\n- C\n",
        "only the block's raw range should be replaced; B and C must survive untouched"
    );
}

#[test]
fn update_toggle_focus_switches_from_browser_to_content() {
    let mut app = make_app();
    app.focus = Focus::Browser;
    let should_quit = app.update(Action::ToggleFocus).unwrap().quit;
    assert!(!should_quit);
    assert_eq!(app.focus, Focus::Content);
}

#[test]
fn update_toggle_focus_switches_from_content_to_browser() {
    let mut app = make_app();
    app.focus = Focus::Content;
    let should_quit = app.update(Action::ToggleFocus).unwrap().quit;
    assert!(!should_quit);
    assert_eq!(app.focus, Focus::Browser);
}

#[test]
fn update_browser_down_increments_selected() {
    let mut app = make_app();
    app.file_items = vec![
        FileItem {
            path: String::from("a"),
            name: "a".to_string(),
            depth: 0,
            is_dir: false,
            is_expanded: false,
        },
        FileItem {
            path: String::from("b"),
            name: "b".to_string(),
            depth: 0,
            is_dir: false,
            is_expanded: false,
        },
    ];
    app.browser_selected = 0;

    let should_quit = app.update(Action::BrowserDown).unwrap().quit;
    assert!(!should_quit);
    assert_eq!(app.browser_selected, 1);
}

#[test]
fn update_browser_up_decrements_selected() {
    let mut app = make_app();
    app.file_items = vec![
        FileItem {
            path: String::from("a"),
            name: "a".to_string(),
            depth: 0,
            is_dir: false,
            is_expanded: false,
        },
        FileItem {
            path: String::from("b"),
            name: "b".to_string(),
            depth: 0,
            is_dir: false,
            is_expanded: false,
        },
    ];
    app.browser_selected = 1;

    let should_quit = app.update(Action::BrowserUp).unwrap().quit;
    assert!(!should_quit);
    assert_eq!(app.browser_selected, 0);
}

#[test]
fn update_content_down_moves_cursor_not_scroll() {
    let mut app = make_app();
    app.content_lines = dummy_lines(10);
    app.content_cursor = 0;
    app.content_scroll = 0;

    let should_quit = app.update(Action::ContentDown(1)).unwrap().quit;
    assert!(!should_quit);
    assert_eq!(app.content_cursor, 1);
    assert_eq!(app.content_scroll, 0);
}

#[test]
fn update_content_up_moves_cursor_not_scroll() {
    let mut app = make_app();
    app.content_lines = dummy_lines(10);
    app.content_cursor = 5;
    app.content_scroll = 5;

    let should_quit = app.update(Action::ContentUp(1)).unwrap().quit;
    assert!(!should_quit);
    assert_eq!(app.content_cursor, 4);
    assert_eq!(app.content_scroll, 5);
}

#[test]
fn update_content_top_sets_cursor_to_first_block() {
    let mut app = make_app();
    app.content_lines = dummy_lines(10);
    app.content_cursor = 5;

    let should_quit = app.update(Action::ContentTop).unwrap().quit;
    assert!(!should_quit);
    assert_eq!(app.content_cursor, 0);
}

#[test]
fn update_content_bottom_sets_cursor_to_last_block() {
    let mut app = make_app();
    app.content_lines = dummy_lines(10);
    app.content_cursor = 0;

    let should_quit = app.update(Action::ContentBottom).unwrap().quit;
    assert!(!should_quit);
    assert_eq!(app.content_cursor, 9);
}

#[test]
fn browser_top_at_depth_0_goes_to_first_item() {
    let mut app = make_app();
    app.file_items = vec![
        FileItem {
            path: String::from("a"),
            name: "a".to_string(),
            depth: 0,
            is_dir: false,
            is_expanded: false,
        },
        FileItem {
            path: String::from("b"),
            name: "b".to_string(),
            depth: 0,
            is_dir: false,
            is_expanded: false,
        },
        FileItem {
            path: String::from("c"),
            name: "c".to_string(),
            depth: 0,
            is_dir: false,
            is_expanded: false,
        },
    ];
    app.browser_selected = 2;

    let should_quit = app.update(Action::BrowserTop).unwrap().quit;
    assert!(!should_quit);
    assert_eq!(app.browser_selected, 0);
}

#[test]
fn browser_bottom_at_depth_0_goes_to_last_item() {
    let mut app = make_app();
    app.file_items = vec![
        FileItem {
            path: String::from("a"),
            name: "a".to_string(),
            depth: 0,
            is_dir: false,
            is_expanded: false,
        },
        FileItem {
            path: String::from("b"),
            name: "b".to_string(),
            depth: 0,
            is_dir: false,
            is_expanded: false,
        },
        FileItem {
            path: String::from("c"),
            name: "c".to_string(),
            depth: 0,
            is_dir: false,
            is_expanded: false,
        },
    ];
    app.browser_selected = 0;

    let should_quit = app.update(Action::BrowserBottom).unwrap().quit;
    assert!(!should_quit);
    assert_eq!(app.browser_selected, 2);
}

#[test]
fn browser_top_inside_dir_goes_to_first_child() {
    let mut app = make_app();
    app.file_items = vec![
        FileItem {
            path: String::from("parent"),
            name: "parent".to_string(),
            depth: 0,
            is_dir: true,
            is_expanded: true,
        },
        FileItem {
            path: String::from("child1"),
            name: "child1".to_string(),
            depth: 1,
            is_dir: false,
            is_expanded: false,
        },
        FileItem {
            path: String::from("child2"),
            name: "child2".to_string(),
            depth: 1,
            is_dir: false,
            is_expanded: false,
        },
        FileItem {
            path: String::from("sibling"),
            name: "sibling".to_string(),
            depth: 0,
            is_dir: false,
            is_expanded: false,
        },
    ];
    app.browser_selected = 2;

    let should_quit = app.update(Action::BrowserTop).unwrap().quit;
    assert!(!should_quit);
    assert_eq!(app.browser_selected, 1);
}

#[test]
fn browser_bottom_inside_dir_goes_to_last_child() {
    let mut app = make_app();
    app.file_items = vec![
        FileItem {
            path: String::from("parent"),
            name: "parent".to_string(),
            depth: 0,
            is_dir: true,
            is_expanded: true,
        },
        FileItem {
            path: String::from("child1"),
            name: "child1".to_string(),
            depth: 1,
            is_dir: false,
            is_expanded: false,
        },
        FileItem {
            path: String::from("child2"),
            name: "child2".to_string(),
            depth: 1,
            is_dir: false,
            is_expanded: false,
        },
        FileItem {
            path: String::from("sibling"),
            name: "sibling".to_string(),
            depth: 0,
            is_dir: false,
            is_expanded: false,
        },
    ];
    app.browser_selected = 1;

    let should_quit = app.update(Action::BrowserBottom).unwrap().quit;
    assert!(!should_quit);
    assert_eq!(app.browser_selected, 2);
}

#[test]
fn browser_top_inside_nested_dir_goes_to_first_child() {
    let mut app = make_app();
    app.file_items = vec![
        FileItem {
            path: String::from("parent"),
            name: "parent".to_string(),
            depth: 0,
            is_dir: true,
            is_expanded: true,
        },
        FileItem {
            path: String::from("subdir"),
            name: "subdir".to_string(),
            depth: 1,
            is_dir: true,
            is_expanded: true,
        },
        FileItem {
            path: String::from("child1"),
            name: "child1".to_string(),
            depth: 2,
            is_dir: false,
            is_expanded: false,
        },
        FileItem {
            path: String::from("child2"),
            name: "child2".to_string(),
            depth: 2,
            is_dir: false,
            is_expanded: false,
        },
        FileItem {
            path: String::from("child3"),
            name: "child3".to_string(),
            depth: 2,
            is_dir: false,
            is_expanded: false,
        },
    ];
    app.browser_selected = 3;

    let should_quit = app.update(Action::BrowserTop).unwrap().quit;
    assert!(!should_quit);
    assert_eq!(app.browser_selected, 2);
}

#[test]
fn browser_bottom_inside_nested_dir_goes_to_last_in_subtree() {
    let mut app = make_app();
    app.file_items = vec![
        FileItem {
            path: String::from("parent"),
            name: "parent".to_string(),
            depth: 0,
            is_dir: true,
            is_expanded: true,
        },
        FileItem {
            path: String::from("subdir"),
            name: "subdir".to_string(),
            depth: 1,
            is_dir: true,
            is_expanded: true,
        },
        FileItem {
            path: String::from("child1"),
            name: "child1".to_string(),
            depth: 2,
            is_dir: false,
            is_expanded: false,
        },
        FileItem {
            path: String::from("child2"),
            name: "child2".to_string(),
            depth: 2,
            is_dir: false,
            is_expanded: false,
        },
        FileItem {
            path: String::from("child3"),
            name: "child3".to_string(),
            depth: 2,
            is_dir: false,
            is_expanded: false,
        },
    ];
    app.browser_selected = 2;

    let should_quit = app.update(Action::BrowserBottom).unwrap().quit;
    assert!(!should_quit);
    assert_eq!(app.browser_selected, 4);
}

#[test]
fn content_search_start_activates_search() {
    let mut app = make_app();
    app.focus = Focus::Content;
    app.current_file = Some(String::from("/test/file.md"));

    let should_quit = app.update(Action::SearchStart).unwrap().quit;
    assert!(!should_quit);
    assert!(app.content_search_active);
    assert!(app.content_search_query.is_empty());
}

#[test]
fn content_search_input_adds_char() {
    let mut app = make_app();
    app.focus = Focus::Content;
    app.content_search_active = true;

    app.update(Action::SearchInput('t')).unwrap();
    assert_eq!(app.content_search_query, "t");

    app.update(Action::SearchInput('e')).unwrap();
    assert_eq!(app.content_search_query, "te");
}

#[test]
fn content_search_input_when_not_active_no_op() {
    let mut app = make_app();
    app.focus = Focus::Content;
    app.content_search_active = false;

    app.update(Action::SearchInput('t')).unwrap();
    assert!(!app.content_search_active);
    assert!(app.content_search_query.is_empty());
}

#[test]
fn content_search_backspace_removes_char() {
    let mut app = make_app();
    app.focus = Focus::Content;
    app.content_search_active = true;
    app.content_search_query = "test".to_string();

    app.update(Action::SearchBackspace).unwrap();
    assert_eq!(app.content_search_query, "tes");

    app.update(Action::SearchBackspace).unwrap();
    assert_eq!(app.content_search_query, "te");
}

#[test]
fn content_search_backspace_empty_query_no_op() {
    let mut app = make_app();
    app.focus = Focus::Content;
    app.content_search_active = true;
    app.content_search_query = "t".to_string();

    app.update(Action::SearchBackspace).unwrap();
    assert_eq!(app.content_search_query, "");

    app.update(Action::SearchBackspace).unwrap();
    assert_eq!(app.content_search_query, "");
}

#[test]
fn content_search_cancel_restores_scroll() {
    let mut app = make_app();
    app.focus = Focus::Content;
    app.current_file = Some(String::from("/test/file.md"));
    app.content_lines = dummy_lines(10);
    app.content_scroll = 5;

    app.update(Action::SearchStart).unwrap();
    assert_eq!(app.content_search_saved_scroll, 5);

    app.content_scroll = 7;

    app.update(Action::SearchCancel).unwrap();
    assert!(!app.content_search_active);
    assert!(app.content_search_query.is_empty());
    assert_eq!(app.content_scroll, 5);
}

#[test]
fn content_search_commit_finds_match() {
    let mut app = make_app();
    app.focus = Focus::Content;
    app.current_file = Some(String::from("/test/file.md"));

    app.content_lines = vec![
        ParsedLine {
            indent: 0,
            is_bullet: false,
            task: None,
            segments: vec![Segment::Plain("first line".to_string())],
            ..Default::default()
        },
        ParsedLine {
            indent: 0,
            is_bullet: false,
            task: None,
            segments: vec![Segment::Plain("target line".to_string())],
            ..Default::default()
        },
        ParsedLine {
            indent: 0,
            is_bullet: false,
            task: None,
            segments: vec![Segment::Plain("another line".to_string())],
            ..Default::default()
        },
    ];
    app.content_scroll = 0;

    app.update(Action::SearchStart).unwrap();
    app.update(Action::SearchInput('t')).unwrap();
    app.update(Action::SearchInput('a')).unwrap();
    app.update(Action::SearchInput('r')).unwrap();

    let should_quit = app.update(Action::SearchCommit).unwrap().quit;
    assert!(!should_quit);
    assert!(!app.content_search_active);
    assert_eq!(app.content_search_query, "tar");
    assert_eq!(app.content_scroll, 1);
}

#[test]
fn content_search_commit_no_match_stays_in_search() {
    let mut app = make_app();
    app.focus = Focus::Content;
    app.current_file = Some(String::from("/test/file.md"));

    app.content_lines = vec![
        ParsedLine {
            indent: 0,
            is_bullet: false,
            task: None,
            segments: vec![Segment::Plain("first line".to_string())],
            ..Default::default()
        },
        ParsedLine {
            indent: 0,
            is_bullet: false,
            task: None,
            segments: vec![Segment::Plain("another line".to_string())],
            ..Default::default()
        },
    ];
    app.content_scroll = 0;

    app.update(Action::SearchStart).unwrap();
    app.update(Action::SearchInput('z')).unwrap();
    app.update(Action::SearchInput('z')).unwrap();

    let should_quit = app.update(Action::SearchCommit).unwrap().quit;
    assert!(!should_quit);
    assert!(app.content_search_active);
    assert_eq!(app.content_search_query, "zz");
}

#[test]
fn content_search_next_finds_next_match() {
    let mut app = make_app();
    app.focus = Focus::Content;
    app.current_file = Some(String::from("/test/file.md"));

    app.content_lines = vec![
        ParsedLine {
            indent: 0,
            is_bullet: false,
            task: None,
            segments: vec![Segment::Plain("target line 1".to_string())],
            ..Default::default()
        },
        ParsedLine {
            indent: 0,
            is_bullet: false,
            task: None,
            segments: vec![Segment::Plain("other line".to_string())],
            ..Default::default()
        },
        ParsedLine {
            indent: 0,
            is_bullet: false,
            task: None,
            segments: vec![Segment::Plain("target line 2".to_string())],
            ..Default::default()
        },
    ];
    app.content_scroll = 0;

    app.update(Action::SearchStart).unwrap();
    app.update(Action::SearchInput('t')).unwrap();
    app.update(Action::SearchInput('a')).unwrap();
    app.update(Action::SearchCommit).unwrap();

    assert_eq!(app.content_scroll, 0);

    let should_quit = app.update(Action::SearchNext).unwrap().quit;
    assert!(!should_quit);
    assert_eq!(app.content_scroll, 2);
}

#[test]
fn content_search_prev_finds_previous_match() {
    let mut app = make_app();
    app.focus = Focus::Content;
    app.current_file = Some(String::from("/test/file.md"));

    app.content_lines = vec![
        ParsedLine {
            indent: 0,
            is_bullet: false,
            task: None,
            segments: vec![Segment::Plain("target line 1".to_string())],
            ..Default::default()
        },
        ParsedLine {
            indent: 0,
            is_bullet: false,
            task: None,
            segments: vec![Segment::Plain("other line".to_string())],
            ..Default::default()
        },
        ParsedLine {
            indent: 0,
            is_bullet: false,
            task: None,
            segments: vec![Segment::Plain("target line 2".to_string())],
            ..Default::default()
        },
    ];
    app.content_scroll = 2;

    app.update(Action::SearchStart).unwrap();
    app.update(Action::SearchInput('t')).unwrap();
    app.update(Action::SearchInput('a')).unwrap();
    app.update(Action::SearchCommit).unwrap();

    assert_eq!(app.content_scroll, 2);

    let should_quit = app.update(Action::SearchPrev).unwrap().quit;
    assert!(!should_quit);
    assert_eq!(app.content_scroll, 0);
}

#[test]
fn content_search_next_no_active_query_no_op() {
    let mut app = make_app();
    app.focus = Focus::Content;
    app.content_scroll = 0;

    let should_quit = app.update(Action::SearchNext).unwrap().quit;
    assert!(!should_quit);
    assert_eq!(app.content_scroll, 0);
}

#[test]
fn content_search_prev_no_active_query_no_op() {
    let mut app = make_app();
    app.focus = Focus::Content;
    app.content_scroll = 5;

    let should_quit = app.update(Action::SearchPrev).unwrap().quit;
    assert!(!should_quit);
    assert_eq!(app.content_scroll, 5);
}

#[test]
fn content_search_case_insensitive() {
    let mut app = make_app();
    app.focus = Focus::Content;
    app.current_file = Some(String::from("/test/file.md"));

    app.content_lines = vec![
        ParsedLine {
            indent: 0,
            is_bullet: false,
            task: None,
            segments: vec![Segment::Plain("UPPER CASE TARGET".to_string())],
            ..Default::default()
        },
        ParsedLine {
            indent: 0,
            is_bullet: false,
            task: None,
            segments: vec![Segment::Plain("lower case line".to_string())],
            ..Default::default()
        },
    ];
    app.content_scroll = 0;

    app.update(Action::SearchStart).unwrap();
    app.update(Action::SearchInput('t')).unwrap();
    app.update(Action::SearchInput('a')).unwrap();
    app.update(Action::SearchInput('r')).unwrap();

    let should_quit = app.update(Action::SearchCommit).unwrap().quit;
    assert!(!should_quit);
    assert_eq!(app.content_scroll, 0);
}

#[test]
fn content_search_with_mixed_segments() {
    let mut app = make_app();
    app.focus = Focus::Content;
    app.current_file = Some(String::from("/test/file.md"));

    app.content_lines = vec![
        ParsedLine {
            indent: 0,
            is_bullet: false,
            task: None,
            segments: vec![
                Segment::Plain("Check ".to_string()),
                Segment::PageLink("my page".to_string()),
                Segment::Plain(" here".to_string()),
            ],
            ..Default::default()
        },
        ParsedLine {
            indent: 0,
            is_bullet: false,
            task: None,
            segments: vec![Segment::Plain("other line".to_string())],
            ..Default::default()
        },
    ];
    app.content_scroll = 0;

    app.update(Action::SearchStart).unwrap();
    app.update(Action::SearchInput('p')).unwrap();
    app.update(Action::SearchInput('a')).unwrap();
    app.update(Action::SearchInput('g')).unwrap();
    app.update(Action::SearchInput('e')).unwrap();

    let should_quit = app.update(Action::SearchCommit).unwrap().quit;
    assert!(!should_quit);
    assert_eq!(app.content_scroll, 0);
}

#[test]
fn match_line_indices_empty_query() {
    let mut app = make_app();
    app.content_lines = vec![ParsedLine {
        indent: 0,
        is_bullet: false,
        task: None,
        segments: vec![Segment::Plain("test line".to_string())],
        ..Default::default()
    }];
    app.content_search_query = String::new();

    let matches = app.match_line_indices();
    assert!(matches.is_empty());
}

#[test]
fn match_line_indices_empty_content() {
    let mut app = make_app();
    app.content_search_query = "test".to_string();

    let matches = app.match_line_indices();
    assert!(matches.is_empty());
}

#[test]
fn match_line_indices_single_match() {
    let mut app = make_app();
    app.content_lines = vec![
        ParsedLine {
            indent: 0,
            is_bullet: false,
            task: None,
            segments: vec![Segment::Plain("first line".to_string())],
            ..Default::default()
        },
        ParsedLine {
            indent: 0,
            is_bullet: false,
            task: None,
            segments: vec![Segment::Plain("target line".to_string())],
            ..Default::default()
        },
        ParsedLine {
            indent: 0,
            is_bullet: false,
            task: None,
            segments: vec![Segment::Plain("other line".to_string())],
            ..Default::default()
        },
    ];
    app.content_search_query = "target".to_string();

    let matches = app.match_line_indices();
    assert_eq!(matches, vec![1]);
}

#[test]
fn match_line_indices_multiple_matches() {
    let mut app = make_app();
    app.content_lines = vec![
        ParsedLine {
            indent: 0,
            is_bullet: false,
            task: None,
            segments: vec![Segment::Plain("target line 1".to_string())],
            ..Default::default()
        },
        ParsedLine {
            indent: 0,
            is_bullet: false,
            task: None,
            segments: vec![Segment::Plain("other line".to_string())],
            ..Default::default()
        },
        ParsedLine {
            indent: 0,
            is_bullet: false,
            task: None,
            segments: vec![Segment::Plain("target line 2".to_string())],
            ..Default::default()
        },
        ParsedLine {
            indent: 0,
            is_bullet: false,
            task: None,
            segments: vec![Segment::Plain("target line 3".to_string())],
            ..Default::default()
        },
    ];
    app.content_search_query = "target".to_string();

    let matches = app.match_line_indices();
    assert_eq!(matches, vec![0, 2, 3]);
}

#[test]
fn match_line_indices_case_insensitive() {
    let mut app = make_app();
    app.content_lines = vec![
        ParsedLine {
            indent: 0,
            is_bullet: false,
            task: None,
            segments: vec![Segment::Plain("UPPER CASE".to_string())],
            ..Default::default()
        },
        ParsedLine {
            indent: 0,
            is_bullet: false,
            task: None,
            segments: vec![Segment::Plain("lower case".to_string())],
            ..Default::default()
        },
    ];
    app.content_search_query = "case".to_string();

    let matches = app.match_line_indices();
    assert_eq!(matches, vec![0, 1]);
}

#[test]
fn match_count_correct() {
    let mut app = make_app();
    app.content_lines = vec![
        ParsedLine {
            indent: 0,
            is_bullet: false,
            task: None,
            segments: vec![Segment::Plain("match 1".to_string())],
            ..Default::default()
        },
        ParsedLine {
            indent: 0,
            is_bullet: false,
            task: None,
            segments: vec![Segment::Plain("no match here".to_string())],
            ..Default::default()
        },
        ParsedLine {
            indent: 0,
            is_bullet: false,
            task: None,
            segments: vec![Segment::Plain("match 2".to_string())],
            ..Default::default()
        },
    ];
    app.content_search_query = "match".to_string();

    assert_eq!(app.match_count(), 3);
}

#[test]
fn current_match_position_when_on_match() {
    let mut app = make_app();
    app.content_lines = vec![
        ParsedLine {
            indent: 0,
            is_bullet: false,
            task: None,
            segments: vec![Segment::Plain("match 1".to_string())],
            ..Default::default()
        },
        ParsedLine {
            indent: 0,
            is_bullet: false,
            task: None,
            segments: vec![Segment::Plain("match 2".to_string())],
            ..Default::default()
        },
        ParsedLine {
            indent: 0,
            is_bullet: false,
            task: None,
            segments: vec![Segment::Plain("match 3".to_string())],
            ..Default::default()
        },
    ];
    app.content_search_query = "match".to_string();

    app.content_scroll = 0;
    assert_eq!(app.current_match_position(), Some(1));

    app.content_scroll = 1;
    assert_eq!(app.current_match_position(), Some(2));

    app.content_scroll = 2;
    assert_eq!(app.current_match_position(), Some(3));
}

#[test]
fn current_match_position_when_not_on_match() {
    let mut app = make_app();
    app.content_lines = vec![
        ParsedLine {
            indent: 0,
            is_bullet: false,
            task: None,
            segments: vec![Segment::Plain("match 1".to_string())],
            ..Default::default()
        },
        ParsedLine {
            indent: 0,
            is_bullet: false,
            task: None,
            segments: vec![Segment::Plain("no match".to_string())],
            ..Default::default()
        },
        ParsedLine {
            indent: 0,
            is_bullet: false,
            task: None,
            segments: vec![Segment::Plain("match 2".to_string())],
            ..Default::default()
        },
    ];
    app.content_search_query = "match".to_string();

    app.content_scroll = 1;
    assert_eq!(app.current_match_position(), Some(2));

    app.content_search_query = "xyz".to_string();
    app.content_scroll = 1;
    assert_eq!(app.current_match_position(), None);
}

#[test]
fn current_match_position_no_matches() {
    let mut app = make_app();
    app.content_lines = vec![ParsedLine {
        indent: 0,
        is_bullet: false,
        task: None,
        segments: vec![Segment::Plain("no match".to_string())],
        ..Default::default()
    }];
    app.content_search_query = "zzz".to_string();

    app.content_scroll = 0;
    assert_eq!(app.current_match_position(), None);
}

#[test]
fn match_line_indices_finds_todo_task() {
    let mut app = make_app();
    app.content_lines = vec![
        ParsedLine {
            indent: 0,
            is_bullet: false,
            task: Some(TaskState::Todo),
            segments: vec![Segment::Plain("buy milk".to_string())],
            ..Default::default()
        },
        ParsedLine {
            indent: 0,
            is_bullet: false,
            task: None,
            segments: vec![Segment::Plain("regular line".to_string())],
            ..Default::default()
        },
        ParsedLine {
            indent: 0,
            is_bullet: false,
            task: Some(TaskState::Done),
            segments: vec![Segment::Plain("finished".to_string())],
            ..Default::default()
        },
    ];
    app.content_search_query = "TODO".to_string();

    let matches = app.match_line_indices();
    assert_eq!(matches.len(), 1);
    assert_eq!(matches[0], 0);
}

#[test]
fn match_line_indices_finds_task_case_insensitive() {
    let mut app = make_app();
    app.content_lines = vec![
        ParsedLine {
            indent: 0,
            is_bullet: false,
            task: Some(TaskState::Todo),
            segments: vec![Segment::Plain("buy milk".to_string())],
            ..Default::default()
        },
        ParsedLine {
            indent: 0,
            is_bullet: false,
            task: Some(TaskState::Done),
            segments: vec![Segment::Plain("finished".to_string())],
            ..Default::default()
        },
    ];
    app.content_search_query = "todo".to_string();

    let matches = app.match_line_indices();
    assert_eq!(matches.len(), 1);
    assert_eq!(matches[0], 0);
}

#[test]
fn match_line_indices_finds_multiple_task_states() {
    let mut app = make_app();
    app.content_lines = vec![
        ParsedLine {
            indent: 0,
            is_bullet: false,
            task: Some(TaskState::Todo),
            segments: vec![Segment::Plain("first".to_string())],
            ..Default::default()
        },
        ParsedLine {
            indent: 0,
            is_bullet: false,
            task: None,
            segments: vec![Segment::Plain("regular".to_string())],
            ..Default::default()
        },
        ParsedLine {
            indent: 0,
            is_bullet: false,
            task: Some(TaskState::Done),
            segments: vec![Segment::Plain("second".to_string())],
            ..Default::default()
        },
        ParsedLine {
            indent: 0,
            is_bullet: false,
            task: Some(TaskState::Todo),
            segments: vec![Segment::Plain("third".to_string())],
            ..Default::default()
        },
    ];
    app.content_search_query = "TODO".to_string();

    let matches = app.match_line_indices();
    assert_eq!(matches.len(), 2);
    assert_eq!(matches[0], 0);
    assert_eq!(matches[1], 3);
}

#[test]
fn content_find_next_match_finds_todo_task() {
    let mut app = make_app();
    app.content_lines = vec![
        ParsedLine {
            indent: 0,
            is_bullet: false,
            task: None,
            segments: vec![Segment::Plain("regular".to_string())],
            ..Default::default()
        },
        ParsedLine {
            indent: 0,
            is_bullet: false,
            task: Some(TaskState::Todo),
            segments: vec![Segment::Plain("task here".to_string())],
            ..Default::default()
        },
    ];
    app.content_search_query = "TODO".to_string();

    let result = app.content_find_next_match(0, false);
    assert_eq!(result, Some(1));
}

fn make_app_with_graph() -> App<FakeGraphSource> {
    let root = String::from("/graph");
    let pages = join(&root, "pages");
    let sub = join(&pages, "sub");

    let mut source = FakeGraphSource::new();
    source.add_dir_entries(root.clone(), vec![(pages.clone(), true, "")]);
    source.add_dir_entries(
        pages.clone(),
        vec![
            (join(&pages, "apple.md"), false, "an apple a day"),
            (join(&pages, "banana.md"), false, "yellow fruit"),
            (sub.clone(), true, ""),
        ],
    );
    source.add_dir_entries(
        sub.clone(),
        vec![(join(&sub, "notes.md"), false, "mentions apple pie recipe")],
    );

    let mut app = App::new(root, source).unwrap();
    app.focus = Focus::Browser;
    app
}

#[test]
fn browser_filter_start_saves_tree_and_selection_and_enters_input_mode() {
    let mut app = make_app_with_graph();
    app.browser_selected = 0;

    app.update(Action::SearchStart).unwrap();

    assert!(app.browser_filter_active);
    assert!(app.browser_filter_query.is_empty());
    assert_eq!(app.browser_filter_saved_selected, 0);
    assert_eq!(app.browser_filter_saved_items.len(), 1); // just "pages", unexpanded
}

#[test]
fn browser_filter_matches_title() {
    let mut app = make_app_with_graph();
    app.update(Action::SearchStart).unwrap();

    app.update(Action::SearchInput('a')).unwrap();
    app.update(Action::SearchInput('p')).unwrap();
    app.update(Action::SearchInput('p')).unwrap();

    let names: Vec<&str> = app.file_items.iter().map(|i| i.name.as_str()).collect();
    assert_eq!(names, vec!["apple", "notes"]);
    assert!(app.file_items.iter().all(|i| !i.is_dir && i.depth == 0));
}

#[test]
fn browser_filter_matches_content_only() {
    let mut app = make_app_with_graph();
    app.update(Action::SearchStart).unwrap();

    for c in "recipe".chars() {
        app.update(Action::SearchInput(c)).unwrap();
    }

    let names: Vec<&str> = app.file_items.iter().map(|i| i.name.as_str()).collect();
    assert_eq!(names, vec!["notes"]);
}

#[test]
fn browser_filter_is_case_insensitive() {
    let mut app = make_app_with_graph();
    app.update(Action::SearchStart).unwrap();

    for c in "APPLE".chars() {
        app.update(Action::SearchInput(c)).unwrap();
    }

    let names: Vec<&str> = app.file_items.iter().map(|i| i.name.as_str()).collect();
    assert_eq!(names, vec!["apple", "notes"]);
}

#[test]
fn browser_filter_no_match_hides_everything() {
    let mut app = make_app_with_graph();
    app.update(Action::SearchStart).unwrap();

    for c in "zzz".chars() {
        app.update(Action::SearchInput(c)).unwrap();
    }

    assert!(app.file_items.is_empty());
}

#[test]
fn browser_filter_backspace_to_empty_restores_unfiltered_tree() {
    let mut app = make_app_with_graph();
    app.update(Action::SearchStart).unwrap();
    app.update(Action::SearchInput('a')).unwrap();
    assert_ne!(app.file_items.len(), 1);

    app.update(Action::SearchBackspace).unwrap();

    assert_eq!(app.file_items.len(), 1);
    assert_eq!(app.file_items[0].name, "pages");
}

#[test]
fn browser_filter_commit_keeps_filtered_tree_and_query() {
    let mut app = make_app_with_graph();
    app.update(Action::SearchStart).unwrap();
    for c in "apple".chars() {
        app.update(Action::SearchInput(c)).unwrap();
    }

    app.update(Action::SearchCommit).unwrap();

    assert!(!app.browser_filter_active);
    assert_eq!(app.browser_filter_query, "apple");
    assert_eq!(app.file_items.len(), 2); // "apple" and "notes" still filtered in
}

#[test]
fn browser_filter_cancel_restores_tree_and_selection() {
    let mut app = make_app_with_graph();
    app.browser_selected = 0;
    app.update(Action::SearchStart).unwrap();
    app.update(Action::SearchInput('a')).unwrap();

    app.update(Action::SearchCancel).unwrap();

    assert!(!app.browser_filter_active);
    assert!(app.browser_filter_query.is_empty());
    assert_eq!(app.file_items.len(), 1);
    assert_eq!(app.file_items[0].name, "pages");
    assert_eq!(app.browser_selected, 0);
}

#[test]
fn browser_filter_restarting_after_commit_resets_from_full_tree() {
    let mut app = make_app_with_graph();
    app.update(Action::SearchStart).unwrap();
    for c in "apple".chars() {
        app.update(Action::SearchInput(c)).unwrap();
    }
    app.update(Action::SearchCommit).unwrap();
    assert_eq!(app.file_items.len(), 2);

    app.update(Action::SearchStart).unwrap();
    app.update(Action::SearchCancel).unwrap();

    assert_eq!(app.file_items.len(), 1);
    assert_eq!(app.file_items[0].name, "pages");
}

#[test]
fn browser_filter_restarting_after_navigating_resets_selection() {
    let mut app = make_app_with_graph();
    app.update(Action::SearchStart).unwrap();
    for c in "apple".chars() {
        app.update(Action::SearchInput(c)).unwrap();
    }
    app.update(Action::SearchCommit).unwrap();
    assert_eq!(app.file_items.len(), 2); // ["apple", "notes"]

    app.update(Action::BrowserDown).unwrap();
    assert_eq!(app.browser_selected, 1);

    app.update(Action::SearchStart).unwrap();
    app.update(Action::SearchCancel).unwrap();

    assert_eq!(app.file_items.len(), 1);
    assert!(app.browser_selected < app.file_items.len());
    assert_eq!(app.browser_selected, 0);
}

#[test]
fn browser_filter_open_selected_loads_matched_file() {
    let mut app = make_app_with_graph();
    app.update(Action::SearchStart).unwrap();
    for c in "banana".chars() {
        app.update(Action::SearchInput(c)).unwrap();
    }
    app.update(Action::SearchCommit).unwrap();
    assert_eq!(app.file_items.len(), 1);
    assert_eq!(app.file_items[0].name, "banana");

    app.update(Action::OpenSelected).unwrap();

    assert_eq!(app.focus, Focus::Content);
    assert_eq!(
        app.current_file.as_deref(),
        Some("/graph/pages/banana.md")
    );
}

#[test]
fn browser_search_next_prev_are_noop_in_browser_focus() {
    let mut app = make_app_with_graph();
    app.update(Action::SearchStart).unwrap();
    app.update(Action::SearchInput('a')).unwrap();
    app.update(Action::SearchCommit).unwrap();
    let items_before: Vec<String> = app.file_items.iter().map(|i| i.path.clone()).collect();
    let selected_before = app.browser_selected;

    app.update(Action::SearchNext).unwrap();
    app.update(Action::SearchPrev).unwrap();

    let items_after: Vec<String> = app.file_items.iter().map(|i| i.path.clone()).collect();
    assert_eq!(items_before, items_after);
    assert_eq!(app.browser_selected, selected_before);
}


#[test]
fn browser_filter_leaves_out_pages_that_cannot_be_read() {
    let mut source = FakeGraphSource::new();
    source.add_dir(
        String::from("/graph"),
        vec![String::from("/graph/apple.md"), String::from("/graph/apricot.md")],
    );
    source.add_file(String::from("/graph/apple.md"), "fruit");
    let mut app = App::new(String::from("/graph"), source).unwrap();
    app.focus = Focus::Browser;
    app.update(Action::SearchStart).unwrap();
    assert_eq!(app.browser_filter_candidates.len(), 1);
    app.update(Action::SearchInput('a')).unwrap();
    app.update(Action::SearchInput('p')).unwrap();
    let names: Vec<&str> = app.file_items.iter().map(|i| i.name.as_str()).collect();
    assert_eq!(names, vec!["apple"]);
}

#[test]
fn gg_and_g_on_an_empty_browser_change_nothing() {
    let mut source = FakeGraphSource::new();
    source.add_dir(String::from("/graph"), vec![String::from("/graph/a.md")]);
    source.add_file(String::from("/graph/a.md"), "alpha");
    let mut app = App::new(String::from("/graph"), source).unwrap();
    app.focus = Focus::Browser;
    app.update(Action::SearchStart).unwrap();
    app.update(Action::SearchInput('z')).unwrap();
    assert!(app.file_items.is_empty());
    let top = app.checked_update(Action::BrowserTop);
    assert!(matches!(top, Some(Ok(_))));
    let bottom = app.checked_update(Action::BrowserBottom);
    assert!(matches!(bottom, Some(Ok(_))));
    assert!(app.file_items.is_empty());
    assert_eq!(app.browser_selected, 0);
}
