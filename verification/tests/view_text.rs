use logseq_view::view_model::{browser_row_label, search_counter, split_spans, BrowserRow};

fn row(depth: usize, is_dir: bool, is_expanded: bool, name: &str) -> BrowserRow {
    BrowserRow {
        depth,
        is_dir,
        is_expanded,
        name: name.to_string(),
        is_selected: false,
    }
}

#[test]
fn row_labels_indent_and_mark_directories() {
    assert_eq!(browser_row_label(&row(0, true, false, "pages")), "▶ pages");
    assert_eq!(browser_row_label(&row(1, true, true, "sub")), "  ▼ sub");
    assert_eq!(browser_row_label(&row(2, false, false, "note")), "      note");
}

#[test]
fn search_counter_texts() {
    assert_eq!(search_counter(true, 3, Some(1)), "");
    assert_eq!(search_counter(false, 12, Some(10)), " [10/12]");
    assert_eq!(search_counter(false, 3, None), " [-/3]");
    assert_eq!(search_counter(false, 0, None), " [no matches]");
    assert_eq!(search_counter(false, 105, Some(0)), " [0/105]");
}

#[test]
fn spans_are_split_along_rows() {
    let spans = vec![0..3, 3..8, 8..10];
    let rows = vec![0..4, 5..10];
    let pieces = split_spans(&spans, &rows);
    assert_eq!(pieces, vec![vec![(0, 0, 3), (1, 3, 4)], vec![(1, 5, 8), (2, 8, 10)]]);
}

#[test]
fn empty_spans_make_no_pieces() {
    let pieces = split_spans(&[0..0, 0..2], &[0..2]);
    assert_eq!(pieces, vec![vec![(1, 0, 2)]]);
}
