use logseq_view::app::{App, FileItem, Focus};
use logseq_view::parser::{ParsedLine, Segment};
use logseq_view::source::FakeGraphSource;
use logseq_view::view_model::{build_view_model, LineHighlight};

fn vm_make_app() -> App<FakeGraphSource> {
    let source = FakeGraphSource::new();
    let mut app = App::new(String::new(), source).unwrap();
    app.file_items.clear();
    app.browser_selected = 0;
    app.browser_offset = 0;
    app.current_file = None;
    app.content_lines.clear();
    app.content_scroll = 0;
    app.focus = Focus::Browser;
    app
}

fn vm_dummy_file_items(count: usize) -> Vec<FileItem> {
    (0..count)
        .map(|i| FileItem {
            path: String::from(format!("item{}", i)),
            name: format!("item{}", i),
            depth: 0,
            is_dir: false,
            is_expanded: false,
        })
        .collect()
}

fn vm_dummy_lines(n: usize) -> Vec<ParsedLine> {
    (0..n)
        .map(|_| ParsedLine {
            indent: 0,
            is_bullet: false,
            task: None,
            segments: Vec::new(),
            ..Default::default()
        })
        .collect()
}

#[test]
fn browser_clamp_selected_before_offset() {
    let mut app = vm_make_app();
    app.file_items = vm_dummy_file_items(13);
    app.browser_offset = 5;
    app.browser_selected = 3;

    let vm = build_view_model(&mut app, 10, 0);

    assert_eq!(app.browser_offset, 3);
    assert_eq!(vm.browser.visible_rows.len(), 10);
    assert!(vm.browser.visible_rows[0].is_selected);
}

#[test]
fn browser_clamp_selected_past_window() {
    let mut app = vm_make_app();
    app.file_items = vm_dummy_file_items(15);
    app.browser_offset = 0;
    app.browser_selected = 10;

    let vm = build_view_model(&mut app, 5, 0);

    assert_eq!(app.browser_offset, 6);
    assert_eq!(vm.browser.visible_rows.len(), 5);
    assert!(vm.browser.visible_rows[4].is_selected);
}

#[test]
fn browser_selected_within_window_unchanged() {
    let mut app = vm_make_app();
    app.file_items = vm_dummy_file_items(12);
    app.browser_offset = 2;
    app.browser_selected = 4;

    let vm = build_view_model(&mut app, 10, 0);

    assert_eq!(app.browser_offset, 2);
    assert_eq!(vm.browser.visible_rows.len(), 10);
    assert!(!vm.browser.visible_rows[0].is_selected);
    assert!(!vm.browser.visible_rows[1].is_selected);
    assert!(vm.browser.visible_rows[2].is_selected);
}

#[test]
fn browser_visible_rows_contains_correct_data() {
    let mut app = vm_make_app();
    app.file_items = vec![
        FileItem {
            path: String::from("a"),
            name: "file_a".to_string(),
            depth: 1,
            is_dir: true,
            is_expanded: true,
        },
        FileItem {
            path: String::from("b"),
            name: "file_b".to_string(),
            depth: 0,
            is_dir: false,
            is_expanded: false,
        },
    ];
    app.browser_offset = 0;
    app.browser_selected = 1;

    let vm = build_view_model(&mut app, 10, 0);

    assert_eq!(vm.browser.visible_rows.len(), 2);
    assert_eq!(vm.browser.visible_rows[0].name, "file_a");
    assert_eq!(vm.browser.visible_rows[0].depth, 1);
    assert!(vm.browser.visible_rows[0].is_dir);
    assert!(vm.browser.visible_rows[0].is_expanded);
    assert!(!vm.browser.visible_rows[0].is_selected);

    assert_eq!(vm.browser.visible_rows[1].name, "file_b");
    assert_eq!(vm.browser.visible_rows[1].depth, 0);
    assert!(!vm.browser.visible_rows[1].is_dir);
    assert!(!vm.browser.visible_rows[1].is_expanded);
    assert!(vm.browser.visible_rows[1].is_selected);
}

#[test]
fn browser_focused_flag() {
    let mut app = vm_make_app();
    app.focus = Focus::Browser;

    let vm = build_view_model(&mut app, 10, 0);
    assert!(vm.browser.focused);
    assert!(!vm.content.focused);

    app.focus = Focus::Content;
    let vm = build_view_model(&mut app, 10, 0);
    assert!(!vm.browser.focused);
    assert!(vm.content.focused);
}

#[test]
fn view_model_content_scroll_clamped_when_past_end() {
    let mut app = vm_make_app();
    app.content_lines = vm_dummy_lines(20);
    app.content_scroll = 15;
    app.current_file = Some(String::from("/test/file.md"));

    let vm = build_view_model(&mut app, 0, 10);

    assert_eq!(app.content_scroll, 10);
    assert_eq!(vm.content.visible_lines.len(), 10);
}

#[test]
fn view_model_content_scroll_unchanged_when_all_lines_fit() {
    let mut app = vm_make_app();
    app.content_lines = vm_dummy_lines(5);
    app.content_scroll = 0;
    app.current_file = Some(String::from("/test/file.md"));

    let vm = build_view_model(&mut app, 0, 10);

    assert_eq!(app.content_scroll, 0);
    assert_eq!(vm.content.visible_lines.len(), 5);
}

#[test]
fn view_model_content_scroll_already_at_end_unchanged() {
    let mut app = vm_make_app();
    app.content_lines = vm_dummy_lines(20);
    app.content_scroll = 10;
    app.current_file = Some(String::from("/test/file.md"));

    let vm = build_view_model(&mut app, 0, 10);

    assert_eq!(app.content_scroll, 10);
    assert_eq!(vm.content.visible_lines.len(), 10);
}

#[test]
fn content_scrollbar_present_when_needed() {
    let mut app = vm_make_app();
    app.content_lines = vm_dummy_lines(20);
    app.content_scroll = 5;
    app.current_file = Some(String::from("/test/file.md"));

    let vm = build_view_model(&mut app, 0, 10);

    assert!(vm.content.scrollbar.is_some());
    let scrollbar = vm.content.scrollbar.unwrap();
    assert_eq!(scrollbar.total, 10);
    assert_eq!(scrollbar.position, 5);
}

#[test]
fn content_scrollbar_absent_when_not_needed() {
    let mut app = vm_make_app();
    app.content_lines = vm_dummy_lines(5);
    app.content_scroll = 0;
    app.current_file = Some(String::from("/test/file.md"));

    let vm = build_view_model(&mut app, 0, 10);

    assert!(vm.content.scrollbar.is_none());
}

#[test]
fn content_no_file_loaded() {
    let mut app = vm_make_app();
    app.current_file = None;
    app.content_lines = Vec::new();

    let vm = build_view_model(&mut app, 0, 10);

    assert!(vm.content.no_file_loaded);
    assert_eq!(vm.content.title, " (no file) ");
    assert!(vm.content.visible_lines.is_empty());
}

#[test]
fn content_title_from_file() {
    let mut app = vm_make_app();
    app.current_file = Some(String::from("/path/to/file.md"));
    app.content_lines = Vec::new();

    let vm = build_view_model(&mut app, 0, 10);

    assert!(!vm.content.no_file_loaded);
    assert_eq!(vm.content.title, " file ");
}

#[test]
fn content_title_url_decoded() {
    let mut app = vm_make_app();
    app.current_file = Some(String::from("/path/to/encoded name.md"));
    app.content_lines = Vec::new();

    let vm = build_view_model(&mut app, 0, 10);

    assert_eq!(vm.content.title, " encoded name ");
}

#[test]
fn view_model_focus_field() {
    let mut app = vm_make_app();
    app.focus = Focus::Browser;

    let vm = build_view_model(&mut app, 10, 10);
    assert_eq!(vm.focus, Focus::Browser);

    app.focus = Focus::Content;
    let vm = build_view_model(&mut app, 10, 10);
    assert_eq!(vm.focus, Focus::Content);
}

#[test]
fn content_view_no_search_no_highlights() {
    let mut app = vm_make_app();
    app.current_file = Some(String::from("/test/file.md"));
    app.content_lines = vm_dummy_lines_with_text(5, "line");
    app.content_scroll = 0;
    app.content_search_query = String::new();

    let vm = build_view_model(&mut app, 0, 10);

    assert_eq!(vm.content.match_count, 0);
    assert_eq!(vm.content.current_match, None);
    assert_eq!(vm.content.line_highlights.len(), 5);
    assert!(vm
        .content
        .line_highlights
        .iter()
        .all(|h| matches!(h, LineHighlight::Plain)));
}

#[test]
fn content_view_search_highlights_matches() {
    let mut app = vm_make_app();
    app.current_file = Some(String::from("/test/file.md"));
    app.content_lines = vec![
        vm_make_line("target line 1"),
        vm_make_line("other line"),
        vm_make_line("target line 2"),
        vm_make_line("target line 3"),
        vm_make_line("no match"),
    ];
    app.content_scroll = 0;
    app.content_search_query = "target".to_string();

    let vm = build_view_model(&mut app, 0, 10);

    assert_eq!(vm.content.match_count, 3);
    assert_eq!(vm.content.current_match, Some(1));

    assert_eq!(vm.content.line_highlights.len(), 5);
    assert_eq!(vm.content.line_highlights[0], LineHighlight::Current);
    assert_eq!(vm.content.line_highlights[1], LineHighlight::Plain);
    assert_eq!(vm.content.line_highlights[2], LineHighlight::Match);
    assert_eq!(vm.content.line_highlights[3], LineHighlight::Match);
    assert_eq!(vm.content.line_highlights[4], LineHighlight::Plain);
}

#[test]
fn content_view_current_match_not_on_match() {
    let mut app = vm_make_app();
    app.current_file = Some(String::from("/test/file.md"));
    app.content_lines = vec![
        vm_make_line("target line 1"),
        vm_make_line("other line"),
        vm_make_line("target line 2"),
    ];
    app.content_scroll = 1;
    app.content_search_query = "target".to_string();

    let vm = build_view_model(&mut app, 0, 10);

    assert_eq!(vm.content.match_count, 2);
    assert_eq!(vm.content.current_match, None);

    assert_eq!(vm.content.line_highlights.len(), 2);
    assert_eq!(vm.content.line_highlights[0], LineHighlight::Plain);
    assert_eq!(vm.content.line_highlights[1], LineHighlight::Match);
}

#[test]
fn content_view_scroll_to_second_match() {
    let mut app = vm_make_app();
    app.current_file = Some(String::from("/test/file.md"));
    app.content_lines = vec![
        vm_make_line("target line 1"),
        vm_make_line("other line"),
        vm_make_line("target line 2"),
        vm_make_line("target line 3"),
    ];
    app.content_scroll = 2;
    app.content_search_query = "target".to_string();

    let vm = build_view_model(&mut app, 0, 10);

    assert_eq!(vm.content.match_count, 3);
    assert_eq!(vm.content.current_match, Some(2));
    assert_eq!(vm.content.line_highlights[0], LineHighlight::Current);
}

#[test]
fn content_view_no_matches() {
    let mut app = vm_make_app();
    app.current_file = Some(String::from("/test/file.md"));
    app.content_lines = vec![vm_make_line("line 1"), vm_make_line("line 2")];
    app.content_scroll = 0;
    app.content_search_query = "zzz".to_string();

    let vm = build_view_model(&mut app, 0, 10);

    assert_eq!(vm.content.match_count, 0);
    assert_eq!(vm.content.current_match, None);
    assert_eq!(vm.content.line_highlights.len(), 2);
    assert!(vm
        .content
        .line_highlights
        .iter()
        .all(|h| matches!(h, LineHighlight::Plain)));
}

#[test]
fn content_view_partial_visibility() {
    let mut app = vm_make_app();
    app.current_file = Some(String::from("/test/file.md"));
    app.content_lines = vec![
        vm_make_line("target line 1"),
        vm_make_line("other line 1"),
        vm_make_line("target line 2"),
        vm_make_line("other line 2"),
        vm_make_line("target line 3"),
    ];
    app.content_scroll = 0;
    app.content_search_query = "target".to_string();

    let vm = build_view_model(&mut app, 0, 3);

    assert_eq!(vm.content.match_count, 3);
    assert_eq!(vm.content.current_match, Some(1));
    assert_eq!(vm.content.visible_lines.len(), 3);
    assert_eq!(vm.content.line_highlights.len(), 3);

    assert_eq!(vm.content.line_highlights[0], LineHighlight::Current);
    assert_eq!(vm.content.line_highlights[1], LineHighlight::Plain);
    assert_eq!(vm.content.line_highlights[2], LineHighlight::Match);
}

#[test]
fn content_view_cursor_highlights_whole_block_when_focused() {
    let mut app = vm_make_app();
    app.focus = Focus::Content;
    app.current_file = Some(String::from("/test/file.md"));
    app.content_lines = vec![
        vm_make_line_indent("A", 0),
        vm_make_line_indent("A1", 1),
        vm_make_line_indent("A2", 1),
        vm_make_line_indent("B", 0),
    ];
    app.content_cursor = 0;

    let vm = build_view_model(&mut app, 0, 10);

    assert_eq!(vm.content.line_highlights[0], LineHighlight::Cursor);
    assert_eq!(vm.content.line_highlights[1], LineHighlight::Cursor);
    assert_eq!(vm.content.line_highlights[2], LineHighlight::Cursor);
    assert_eq!(vm.content.line_highlights[3], LineHighlight::Plain);
}

#[test]
fn content_view_cursor_on_leaf_only_highlights_itself() {
    let mut app = vm_make_app();
    app.focus = Focus::Content;
    app.current_file = Some(String::from("/test/file.md"));
    app.content_lines = vec![
        vm_make_line_indent("A", 0),
        vm_make_line_indent("A1", 1),
        vm_make_line_indent("A2", 1),
    ];
    app.content_cursor = 1;

    let vm = build_view_model(&mut app, 0, 10);

    assert_eq!(vm.content.line_highlights[0], LineHighlight::Plain);
    assert_eq!(vm.content.line_highlights[1], LineHighlight::Cursor);
    assert_eq!(vm.content.line_highlights[2], LineHighlight::Plain);
}

#[test]
fn content_view_no_cursor_highlight_when_browser_focused() {
    let mut app = vm_make_app();
    app.focus = Focus::Browser;
    app.current_file = Some(String::from("/test/file.md"));
    app.content_lines = vec![vm_make_line_indent("A", 0), vm_make_line_indent("A1", 1)];
    app.content_cursor = 0;

    let vm = build_view_model(&mut app, 0, 10);

    assert!(vm
        .content
        .line_highlights
        .iter()
        .all(|h| matches!(h, LineHighlight::Plain)));
}

#[test]
fn content_view_search_current_wins_over_cursor() {
    let mut app = vm_make_app();
    app.focus = Focus::Content;
    app.current_file = Some(String::from("/test/file.md"));
    app.content_lines = vec![
        vm_make_line_indent("A", 0),
        vm_make_line_indent("target", 1),
        vm_make_line_indent("A2", 1),
    ];
    app.content_cursor = 1;
    app.content_scroll = 1; // the active search match is line 1
    app.content_search_query = "target".to_string();

    let vm = build_view_model(&mut app, 0, 10);

    assert_eq!(vm.content.line_highlights[0], LineHighlight::Current); // Current beats Cursor
    assert_eq!(vm.content.line_highlights[1], LineHighlight::Plain); // outside the (leaf) block
}

#[test]
fn content_view_cursor_wins_over_other_search_match() {
    let mut app = vm_make_app();
    app.focus = Focus::Content;
    app.current_file = Some(String::from("/test/file.md"));
    app.content_lines = vec![
        vm_make_line_indent("A", 0),
        vm_make_line_indent("target child", 1),
        vm_make_line_indent("other", 0),
        vm_make_line_indent("target C", 0),
    ];
    app.content_cursor = 0; // block = lines 0..2
    app.content_scroll = 0; // line 0 isn't a match, so there is no "current" match line
    app.content_search_query = "target".to_string();

    let vm = build_view_model(&mut app, 0, 10);

    assert_eq!(vm.content.current_match, None);
    assert_eq!(vm.content.line_highlights[1], LineHighlight::Cursor);
    assert_eq!(vm.content.line_highlights[3], LineHighlight::Match);
}

fn vm_make_line_indent(text: &str, indent: usize) -> ParsedLine {
    ParsedLine {
        indent,
        is_bullet: true,
        task: None,
        segments: vec![Segment::Plain(text.to_string())],
        ..Default::default()
    }
}

fn vm_make_line(text: &str) -> ParsedLine {
    ParsedLine {
        indent: 0,
        is_bullet: false,
        task: None,
        segments: vec![Segment::Plain(text.to_string())],
        ..Default::default()
    }
}

fn vm_dummy_lines_with_text(n: usize, _prefix: &str) -> Vec<ParsedLine> {
    (0..n)
        .map(|i| ParsedLine {
            indent: 0,
            is_bullet: false,
            task: None,
            segments: vec![Segment::Plain(format!("line {}", i))],
            ..Default::default()
        })
        .collect()
}

