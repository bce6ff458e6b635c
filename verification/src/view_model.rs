//! What the interface draws, computed from the state: the visible browser
//! rows, the visible lines of the page with their highlights, the title
//! and the scrollbar. Building it also settles the scroll positions.

use vstd::prelude::*;
use crate::app::{App, AppModel, Focus, block_range, block_range_at, rows_sum};
use crate::parser::{ParsedLine, ParsedLineView, copy_line, display_text, line_row_count, lines_view, spaces};
use crate::source::{GraphSource, file_stem, file_stem_of, url_decode, url_decoded};
use crate::text::{push_chars, str_chars, string_from_chars, string_push};
use crate::wrap::{ranges_view, wrap_rows};
use core::ops::Range;

verus! {

/// One visible row of the browser.
#[derive(Debug, Clone)]
pub struct BrowserRow {
    pub depth: usize,
    pub is_dir: bool,
    pub is_expanded: bool,
    pub name: String,
    pub is_selected: bool,
}

/// A `BrowserRow` with its name as a character sequence.
pub struct BrowserRowView {
    pub depth: usize,
    pub is_dir: bool,
    pub is_expanded: bool,
    pub name: Seq<char>,
    pub is_selected: bool,
}

impl View for BrowserRow {
    type V = BrowserRowView;

    open spec fn view(&self) -> BrowserRowView {
        BrowserRowView {
            depth: self.depth,
            is_dir: self.is_dir,
            is_expanded: self.is_expanded,
            name: self.name@,
            is_selected: self.is_selected,
        }
    }
}

/// The views of browser rows.
pub open spec fn rows_view(v: Seq<BrowserRow>) -> Seq<BrowserRowView> {
    v.map_values(|r: BrowserRow| r@)
}

/// Where the content scrollbar stands: `position` out of `total`.
#[derive(Debug, Clone, Copy, PartialEq, Eq, Structural)]
pub struct ScrollbarInfo {
    pub total: usize,
    pub position: usize,
}

/// How a visible line is highlighted. When several apply, the highest
/// wins: `Current` (the line of the match being viewed), then `Cursor`
/// (inside the cursor's block), then `Match` (another search match).
#[derive(Debug, Clone, Copy, PartialEq, Eq, Structural)]
pub enum LineHighlight {
    Plain,
    Match,
    Cursor,
    Current,
}

/// The content pane.
#[derive(Debug, Clone)]
pub struct ContentView {
    pub title: String,
    pub visible_lines: Vec<ParsedLine>,
    pub focused: bool,
    pub scrollbar: Option<ScrollbarInfo>,
    pub no_file_loaded: bool,
    pub match_count: usize,
    pub current_match: Option<usize>,
    pub line_highlights: Vec<LineHighlight>,
    /// The columns lines are wrapped to (0: no wrapping, one row a line).
    pub wrap_width: usize,
}

/// The browser pane.
#[derive(Debug, Clone)]
pub struct BrowserView {
    pub visible_rows: Vec<BrowserRow>,
    pub focused: bool,
}

/// Everything the interface draws.
#[derive(Debug, Clone)]
pub struct ViewModel {
    pub browser: BrowserView,
    pub content: ContentView,
    pub focus: Focus,
    pub content_search_active: bool,
    pub content_search_query: String,
    pub browser_search_active: bool,
    pub browser_search_query: String,
}

/// The rows of `vh` browser items from the offset on.
pub open spec fn browser_rows(m: AppModel, vh: usize) -> Seq<BrowserRowView> {
    let n = m.file_items.len() as int;
    let start = if (m.browser_offset as int) < n { m.browser_offset as int } else { n };
    let end = if m.browser_offset + vh < n { m.browser_offset + vh } else { n };
    Seq::new(
        (end - start) as nat,
        |i: int|
            BrowserRowView {
                depth: m.file_items[start + i].depth,
                is_dir: m.file_items[start + i].is_dir,
                is_expanded: m.file_items[start + i].is_expanded,
                name: m.file_items[start + i].name,
                is_selected: start + i == m.browser_selected,
            },
    )
}

/// The wrapped-row count of each line at `width` columns.
pub open spec fn row_counts(lines: Seq<ParsedLineView>, width: usize) -> Seq<usize> {
    lines.map_values(|l: ParsedLineView| wrap_rows(display_text(l), width as int).len() as usize)
}

/// The state with the content scroll settled for `vh` rows at `width`
/// columns: the view follows the cursor while the content pane is
/// focused, then is kept from running short of lines. When the rows of the
/// page cannot be counted in a `usize` the view is left where it is.
pub open spec fn settle_content(m: AppModel, vh: usize, width: usize) -> AppModel {
    let rc = row_counts(m.content_lines, width);
    if rows_sum(rc, 0, rc.len() as int) > usize::MAX {
        m
    } else {
        let m1 = if m.focus == Focus::Content {
            m.clamp_content_cursor_scroll(vh, rc)
        } else {
            m
        };
        m1.clamp_content_scroll(vh, rc)
    }
}

/// The page title: the URL-decoded file stem of the current page between
/// spaces, or ` (no file) `.
pub open spec fn content_title(m: AppModel) -> Seq<char> {
    let none = seq![' ', '(', 'n', 'o', ' ', 'f', 'i', 'l', 'e', ')', ' '];
    match m.current_file {
        Some(p) => match file_stem_of(p) {
            Some(s) => seq![' '] + url_decoded(s) + seq![' '],
            None => none,
        },
        None => none,
    }
}

/// The `vh` lines shown from the view's top (none without a page).
pub open spec fn visible_lines(m: AppModel, vh: usize) -> Seq<ParsedLineView> {
    let n = m.content_lines.len() as int;
    let start = if (m.content_scroll as int) < n { m.content_scroll as int } else { n };
    let end = if m.content_scroll + vh < n { m.content_scroll + vh } else { n };
    if m.current_file is None {
        seq![]
    } else {
        m.content_lines.subrange(start, end)
    }
}

/// The scrollbar, when the page has more lines than the viewport.
pub open spec fn scrollbar(m: AppModel, vh: usize) -> Option<ScrollbarInfo> {
    let n = m.content_lines.len();
    if m.current_file is None || n <= vh {
        None
    } else {
        Some(ScrollbarInfo { total: (n - vh) as usize, position: m.content_scroll })
    }
}

/// The highlight of line `abs` (see `LineHighlight`).
pub open spec fn highlight(m: AppModel, abs: int) -> LineHighlight {
    let current_line = if m.current_match() is Some {
        Some(m.content_scroll as int)
    } else {
        None
    };
    let cursor = if m.current_file is Some && m.focus == Focus::Content {
        block_range(m.content_lines, m.content_cursor as int)
    } else {
        (0, 0)
    };
    if current_line == Some(abs) {
        LineHighlight::Current
    } else if cursor.0 <= abs < cursor.1 {
        LineHighlight::Cursor
    } else if m.match_lines().contains(abs as usize) {
        LineHighlight::Match
    } else {
        LineHighlight::Plain
    }
}

/// The highlights of the visible lines.
pub open spec fn highlights(m: AppModel, vh: usize) -> Seq<LineHighlight> {
    Seq::new(visible_lines(m, vh).len(), |i: int| highlight(m, m.content_scroll + i))
}

/// The browser pane for `visible_height` rows, after scrolling the
/// selection into view.
pub fn build_browser_view<S: GraphSource>(app: &mut App<S>, visible_height: usize) -> (r: BrowserView)
    requires
        visible_height > 0 || old(app).browser_selected < usize::MAX,
    ensures
        final(app)@ == old(app)@.clamp_browser_scroll(visible_height),
        final(app).source == old(app).source,
        rows_view(r.visible_rows@) == browser_rows(final(app)@, visible_height),
        r.focused == (final(app).focus == Focus::Browser),
{
    app.clamp_browser_scroll(visible_height);
    let ghost m = app@;
    let n = app.file_items.len();
    let start = if app.browser_offset < n {
        app.browser_offset
    } else {
        n
    };
    let end = if visible_height < n - start {
        start + visible_height
    } else {
        n
    };
    let ghost expected = browser_rows(m, visible_height);
    assert(expected.len() == end - start);
    let mut rows: Vec<BrowserRow> = Vec::new();
    let mut i: usize = start;
    while i < end
        invariant
            start <= i <= end <= n == app.file_items@.len(),
            m == app@,
            expected == browser_rows(m, visible_height),
            expected.len() == end - start,
            m.browser_offset < n ==> start == m.browser_offset,
            m.browser_offset >= n ==> start == n,
            rows_view(rows@) == expected.take(i - start),
        decreases end - i,
    {
        let item = &app.file_items[i];
        let row = BrowserRow {
            depth: item.depth,
            is_dir: item.is_dir,
            is_expanded: item.is_expanded,
            name: item.name.clone(),
            is_selected: i == app.browser_selected,
        };
        let ghost prev = rows@;
        proof {
            assert(m.file_items[i as int] == app.file_items@[i as int]@);
            assert(expected[i - start] == row@);
        }
        let ghost pv = rows_view(rows@);
        rows.push(row);
        assert(rows@ =~= prev.push(row));
        assert(rows_view(rows@) =~= pv.push(row@));
        assert(expected.take(i + 1 - start) =~= expected.take(i - start).push(expected[i - start]));
        assert(rows_view(rows@) =~= expected.take(i + 1 - start));
        i = i + 1;
    }
    assert(expected.take(end - start) =~= expected);
    BrowserView { visible_rows: rows, focused: app.focus == Focus::Browser }
}

/// The wrapped-row count of every line at `width` columns.
fn line_row_counts(lines: &Vec<ParsedLine>, width: usize) -> (r: Vec<usize>)
    ensures
        r@ == row_counts(lines_view(lines@), width),
{
    let mut out: Vec<usize> = Vec::new();
    let mut i: usize = 0;
    while i < lines.len()
        invariant
            i <= lines@.len(),
            out@ == row_counts(lines_view(lines@), width).take(i as int),
        decreases lines@.len() - i,
    {
        let c = line_row_count(&lines[i], width);
        assert(lines_view(lines@)[i as int] == lines@[i as int]@);
        out.push(c);
        assert(out@ =~= row_counts(lines_view(lines@), width).take(i + 1));
        i = i + 1;
    }
    assert(row_counts(lines_view(lines@), width).take(lines@.len() as int) =~= row_counts(
        lines_view(lines@),
        width,
    ));
    out
}

/// The total of `rc`, or `None` when it does not fit in a `usize`.
fn total_rows(rc: &Vec<usize>) -> (r: Option<usize>)
    ensures
        r matches Some(t) ==> t == rows_sum(rc@, 0, rc@.len() as int),
        r is None ==> rows_sum(rc@, 0, rc@.len() as int) > usize::MAX,
{
    let mut total: usize = 0;
    let mut i: usize = 0;
    while i < rc.len()
        invariant
            i <= rc@.len(),
            total == rows_sum(rc@, 0, i as int),
        decreases rc@.len() - i,
    {
        match total.checked_add(rc[i]) {
            Some(t) => {
                total = t;
            },
            None => {
                proof {
                    crate::app::lemma_rows_sum_split(rc@, 0, i + 1, rc@.len() as int);
                }
                return None;
            },
        }
        i = i + 1;
    }
    Some(total)
}

/// Whether `v` holds `x`.
fn vec_contains(v: &Vec<usize>, x: usize) -> (r: bool)
    ensures
        r == v@.contains(x),
{
    let mut i: usize = 0;
    while i < v.len()
        invariant
            i <= v@.len(),
            forall|k: int| 0 <= k < i ==> v@[k] != x,
        decreases v@.len() - i,
    {
        if v[i] == x {
            assert(v@[i as int] == x);
            return true;
        }
        i = i + 1;
    }
    false
}

/// The content pane title (see `content_title`).
fn build_title<S: GraphSource>(app: &App<S>) -> (r: String)
    ensures
        r@ == content_title(app@),
{
    let none = [' ', '(', 'n', 'o', ' ', 'f', 'i', 'l', 'e', ')', ' '];
    assert(none@ =~= seq![' ', '(', 'n', 'o', ' ', 'f', 'i', 'l', 'e', ')', ' ']);
    match &app.current_file {
        Some(p) => match file_stem(p.as_str()) {
            Some(stem) => {
                let mut t = String::new();
                string_push(&mut t, ' ');
                let name = url_decode(stem.as_str());
                let cs = str_chars(name.as_str());
                push_chars(&mut t, cs.as_slice());
                string_push(&mut t, ' ');
                assert(t@ =~= seq![' '] + url_decoded(stem@) + seq![' ']);
                t
            },
            None => string_from_chars(none.as_slice()),
        },
        None => string_from_chars(none.as_slice()),
    }
}

/// The content pane for `visible_height` rows wrapped at `width` columns,
/// after settling the scroll (see `settle_content`).
pub fn build_content_view<S: GraphSource>(app: &mut App<S>, visible_height: usize, width: usize) -> (r:
    ContentView)
    ensures
        final(app)@ == settle_content(old(app)@, visible_height, width),
        final(app).source == old(app).source,
        r.title@ == content_title(final(app)@),
        lines_view(r.visible_lines@) == visible_lines(final(app)@, visible_height),
        r.focused == (final(app).focus == Focus::Content),
        r.scrollbar == scrollbar(final(app)@, visible_height),
        r.no_file_loaded == (final(app).current_file is None),
        r.match_count == final(app)@.match_lines().len(),
        r.current_match == final(app)@.current_match(),
        r.line_highlights@ == highlights(final(app)@, visible_height),
        r.wrap_width == width,
{
    let rc = line_row_counts(&app.content_lines, width);
    if let Some(_) = total_rows(&rc) {
        if app.focus == Focus::Content {
            app.clamp_content_cursor_scroll(visible_height, rc.as_slice());
        }
        app.clamp_content_scroll(visible_height, rc.as_slice());
    }
    let ghost m = app@;
    let title = build_title(app);
    let no_file_loaded = app.current_file.is_none();
    let n = app.content_lines.len();
    let start = if app.content_scroll < n {
        app.content_scroll
    } else {
        n
    };
    let end = if visible_height < n - start {
        start + visible_height
    } else {
        n
    };
    proof {
        if app.content_scroll < n {
            assert(start + visible_height == app.content_scroll + visible_height);
        }
    }
    let mut visible: Vec<ParsedLine> = Vec::new();
    if !no_file_loaded {
        let mut i: usize = start;
        while i < end
            invariant
                start <= i <= end <= n == app.content_lines@.len(),
                m == app@,
                lines_view(visible@) == m.content_lines.subrange(start as int, i as int),
            decreases end - i,
        {
            let ghost prev = visible@;
            let l = copy_line(&app.content_lines[i]);
            assert(m.content_lines[i as int] == l@);
            let ghost pv = lines_view(visible@);
            visible.push(l);
            assert(visible@ =~= prev.push(l));
            assert(lines_view(visible@) =~= pv.push(l@));
            assert(m.content_lines.subrange(start as int, i + 1) =~= m.content_lines.subrange(
                start as int,
                i as int,
            ).push(m.content_lines[i as int]));
            assert(lines_view(visible@) =~= m.content_lines.subrange(start as int, i + 1));
            i = i + 1;
        }
    }
    assert(lines_view(visible@) =~= visible_lines(m, visible_height));
    let scrollbar = if no_file_loaded {
        None
    } else if n > visible_height {
        Some(ScrollbarInfo { total: n - visible_height, position: app.content_scroll })
    } else {
        None
    };
    let match_indices = app.match_line_indices();
    let match_count = match_indices.len();
    let current_match = app.current_match_position();
    let current_match_line = if current_match.is_some() {
        Some(app.content_scroll)
    } else {
        None
    };
    let cursor_range = if !no_file_loaded && app.focus == Focus::Content {
        block_range_at(app.content_lines.as_slice(), app.content_cursor)
    } else {
        (0, 0)
    };
    let count = visible.len();
    let mut marks: Vec<LineHighlight> = Vec::new();
    let mut k: usize = 0;
    while k < count
        invariant
            k <= count == visible_lines(m, visible_height).len(),
            m == app@,
            start as int == (if (m.content_scroll as int) < n { m.content_scroll as int } else { n as int }),
            n == m.content_lines.len(),
            count > 0 ==> start == m.content_scroll,
            match_indices@ == m.match_lines(),
            current_match == m.current_match(),
            current_match_line == (if m.current_match() is Some { Some(m.content_scroll) } else { None::<usize> }),
            (cursor_range.0 as int, cursor_range.1 as int) == (if m.current_file is Some && m.focus
                == Focus::Content {
                block_range(m.content_lines, m.content_cursor as int)
            } else {
                (0, 0)
            }),
            marks@ == highlights(m, visible_height).take(k as int),
            start + count <= n,
        decreases count - k,
    {
        let abs = start + k;
        let h = if current_match_line == Some(abs) {
            LineHighlight::Current
        } else if cursor_range.0 <= abs && abs < cursor_range.1 {
            LineHighlight::Cursor
        } else if vec_contains(&match_indices, abs) {
            LineHighlight::Match
        } else {
            LineHighlight::Plain
        };
        assert(h == highlight(m, m.content_scroll + k));
        marks.push(h);
        assert(marks@ =~= highlights(m, visible_height).take(k + 1));
        k = k + 1;
    }
    assert(highlights(m, visible_height).take(count as int) =~= highlights(m, visible_height));
    ContentView {
        title,
        visible_lines: visible,
        focused: app.focus == Focus::Content,
        scrollbar,
        no_file_loaded,
        match_count,
        current_match,
        line_highlights: marks,
        wrap_width: width,
    }
}

/// Builds the view model with lines wrapped at `content_width` columns,
/// settling the browser and content scroll positions on the way.
pub fn build_view_model_at_width<S: GraphSource>(
    app: &mut App<S>,
    browser_visible_height: usize,
    content_visible_height: usize,
    content_width: usize,
) -> (r: ViewModel)
    requires
        browser_visible_height > 0 || old(app).browser_selected < usize::MAX,
    ensures
        final(app)@ == settle_content(
            old(app)@.clamp_browser_scroll(browser_visible_height),
            content_visible_height,
            content_width,
        ),
        final(app).source == old(app).source,
        rows_view(r.browser.visible_rows@) == browser_rows(
            old(app)@.clamp_browser_scroll(browser_visible_height),
            browser_visible_height,
        ),
        r.browser.focused == (final(app).focus == Focus::Browser),
        r.content.title@ == content_title(final(app)@),
        lines_view(r.content.visible_lines@) == visible_lines(final(app)@, content_visible_height),
        r.content.focused == (final(app).focus == Focus::Content),
        r.content.scrollbar == scrollbar(final(app)@, content_visible_height),
        r.content.no_file_loaded == (final(app).current_file is None),
        r.content.match_count == final(app)@.match_lines().len(),
        r.content.current_match == final(app)@.current_match(),
        r.content.line_highlights@ == highlights(final(app)@, content_visible_height),
        r.content.wrap_width == content_width,
        r.focus == final(app).focus,
        r.content_search_active == final(app).content_search_active,
        r.content_search_query@ == final(app)@.content_search_query,
        r.browser_search_active == final(app).browser_filter_active,
        r.browser_search_query@ == final(app)@.browser_filter_query,
{
    let browser = build_browser_view(app, browser_visible_height);
    let content = build_content_view(app, content_visible_height, content_width);
    ViewModel {
        browser,
        content,
        focus: app.focus,
        content_search_active: app.content_search_active,
        content_search_query: app.content_search_query.clone(),
        browser_search_active: app.browser_filter_active,
        browser_search_query: app.browser_filter_query.clone(),
    }
}

/// Builds the view model for the given pane heights, one row a line.
pub fn build_view_model<S: GraphSource>(
    app: &mut App<S>,
    browser_visible_height: usize,
    content_visible_height: usize,
) -> (r: ViewModel)
    requires
        browser_visible_height > 0 || old(app).browser_selected < usize::MAX,
    ensures
        final(app)@ == settle_content(
            old(app)@.clamp_browser_scroll(browser_visible_height),
            content_visible_height,
            0,
        ),
        final(app).source == old(app).source,
        rows_view(r.browser.visible_rows@) == browser_rows(
            old(app)@.clamp_browser_scroll(browser_visible_height),
            browser_visible_height,
        ),
        r.browser.focused == (final(app).focus == Focus::Browser),
        r.content.title@ == content_title(final(app)@),
        lines_view(r.content.visible_lines@) == visible_lines(final(app)@, content_visible_height),
        r.content.focused == (final(app).focus == Focus::Content),
        r.content.scrollbar == scrollbar(final(app)@, content_visible_height),
        r.content.no_file_loaded == (final(app).current_file is None),
        r.content.match_count == final(app)@.match_lines().len(),
        r.content.current_match == final(app)@.current_match(),
        r.content.line_highlights@ == highlights(final(app)@, content_visible_height),
        r.content.wrap_width == 0,
        r.focus == final(app).focus,
        r.content_search_active == final(app).content_search_active,
        r.content_search_query@ == final(app)@.content_search_query,
        r.browser_search_active == final(app).browser_filter_active,
        r.browser_search_query@ == final(app)@.browser_filter_query,
{
    build_view_model_at_width(app, browser_visible_height, content_visible_height, 0)
}


// ---------------------------------------------------------------------------
// Text for the interface
// ---------------------------------------------------------------------------

/// The label of a browser row: two spaces per level, an open or closed
/// triangle for a directory (two spaces for a page), then the name.
pub open spec fn row_label(r: BrowserRowView) -> Seq<char> {
    let icon = if r.is_dir {
        if r.is_expanded {
            seq!['\u{25bc}', ' ']
        } else {
            seq!['\u{25b6}', ' ']
        }
    } else {
        seq![' ', ' ']
    };
    spaces((2 * r.depth) as nat) + icon + r.name
}

/// The text of a browser row (see `row_label`).
pub fn browser_row_label(row: &BrowserRow) -> (r: String)
    ensures
        r@ == row_label(row@),
{
    let mut t = String::new();
    let mut k: usize = 0;
    while k < row.depth
        invariant
            k <= row.depth,
            t@ == spaces((2 * k) as nat),
        decreases row.depth - k,
    {
        string_push(&mut t, ' ');
        string_push(&mut t, ' ');
        k = k + 1;
        assert(t@ =~= spaces((2 * k) as nat));
    }
    if row.is_dir {
        if row.is_expanded {
            string_push(&mut t, '\u{25bc}');
        } else {
            string_push(&mut t, '\u{25b6}');
        }
    } else {
        string_push(&mut t, ' ');
    }
    string_push(&mut t, ' ');
    let name = str_chars(row.name.as_str());
    push_chars(&mut t, name.as_slice());
    assert(t@ =~= row_label(row@));
    t
}

/// The decimal digits of `n`.
pub open spec fn decimal(n: nat) -> Seq<char>
    decreases n,
{
    if n < 10 {
        seq![digit_char((n % 10) as nat)]
    } else {
        decimal(n / 10) + seq![digit_char((n % 10) as nat)]
    }
}

/// The character of a digit.
pub open spec fn digit_char(d: nat) -> char {
    if d == 0 {
        '0'
    } else if d == 1 {
        '1'
    } else if d == 2 {
        '2'
    } else if d == 3 {
        '3'
    } else if d == 4 {
        '4'
    } else if d == 5 {
        '5'
    } else if d == 6 {
        '6'
    } else if d == 7 {
        '7'
    } else if d == 8 {
        '8'
    } else {
        '9'
    }
}

fn digit(d: usize) -> (c: char)
    requires
        d < 10,
    ensures
        c == digit_char(d as nat),
{
    if d == 0 {
        '0'
    } else if d == 1 {
        '1'
    } else if d == 2 {
        '2'
    } else if d == 3 {
        '3'
    } else if d == 4 {
        '4'
    } else if d == 5 {
        '5'
    } else if d == 6 {
        '6'
    } else if d == 7 {
        '7'
    } else if d == 8 {
        '8'
    } else {
        '9'
    }
}

/// Appends the decimal digits of `n`.
fn push_decimal(s: &mut String, n: usize)
    ensures
        final(s)@ == old(s)@ + decimal(n as nat),
    decreases n,
{
    if n >= 10 {
        push_decimal(s, n / 10);
    }
    string_push(s, digit(n % 10));
}

/// The match counter after a content search query: `[k/n]` on the k-th
/// of n matches, `[-/n]` off them, `[no matches]`; nothing without a
/// query.
pub open spec fn counter_text(query_empty: bool, match_count: usize, current: Option<usize>) -> Seq<
    char,
> {
    if query_empty {
        seq![]
    } else if match_count > 0 {
        match current {
            Some(k) => seq![' ', '['] + decimal(k as nat) + seq!['/'] + decimal(match_count as nat)
                + seq![']'],
            None => seq![' ', '[', '-', '/'] + decimal(match_count as nat) + seq![']'],
        }
    } else {
        seq![' ', '[', 'n', 'o', ' ', 'm', 'a', 't', 'c', 'h', 'e', 's', ']']
    }
}

/// The status bar's match counter (see `counter_text`).
pub fn search_counter(query_empty: bool, match_count: usize, current: Option<usize>) -> (r: String)
    ensures
        r@ == counter_text(query_empty, match_count, current),
{
    let mut t = String::new();
    if query_empty {
        return t;
    }
    if match_count > 0 {
        string_push(&mut t, ' ');
        string_push(&mut t, '[');
        match current {
            Some(k) => push_decimal(&mut t, k),
            None => string_push(&mut t, '-'),
        }
        string_push(&mut t, '/');
        push_decimal(&mut t, match_count);
        string_push(&mut t, ']');
        assert(t@ =~= counter_text(query_empty, match_count, current));
        t
    } else {
        let none = [' ', '[', 'n', 'o', ' ', 'm', 'a', 't', 'c', 'h', 'e', 's', ']'];
        assert(none@ =~= seq![' ', '[', 'n', 'o', ' ', 'm', 'a', 't', 'c', 'h', 'e', 's', ']']);
        string_from_chars(none.as_slice())
    }
}

/// The pieces of styled spans that fall on one wrapped row: for each of
/// the first `k` spans (byte ranges of the line's text) that overlaps the
/// row, its index and the overlapping byte range.
pub open spec fn row_pieces(spans: Seq<(int, int)>, row: (int, int), k: int) -> Seq<
    (usize, usize, usize),
>
    decreases k,
{
    if k <= 0 {
        seq![]
    } else {
        let prev = row_pieces(spans, row, k - 1);
        let sp = spans[k - 1];
        let a = if sp.0 > row.0 { sp.0 } else { row.0 };
        let b = if sp.1 < row.1 { sp.1 } else { row.1 };
        if a < b {
            prev.push(((k - 1) as usize, a as usize, b as usize))
        } else {
            prev
        }
    }
}

/// Splits styled spans along wrapped rows: for each row, the spans that
/// overlap it, in order, with the overlapping byte range.
pub fn split_spans(spans: &[Range<usize>], rows: &[Range<usize>]) -> (r: Vec<Vec<(usize, usize, usize)>>)
    ensures
        r@.len() == rows@.len(),
        forall|j: int|
            0 <= j < rows@.len() ==> #[trigger] r@[j]@ == row_pieces(
                ranges_view(spans@),
                ranges_view(rows@)[j],
                spans@.len() as int,
            ),
{
    let ghost sv = ranges_view(spans@);
    let ghost rv = ranges_view(rows@);
    let mut out: Vec<Vec<(usize, usize, usize)>> = Vec::new();
    let mut j: usize = 0;
    while j < rows.len()
        invariant
            j <= rows@.len(),
            sv == ranges_view(spans@),
            rv == ranges_view(rows@),
            out@.len() == j,
            forall|q: int|
                0 <= q < j ==> #[trigger] out@[q]@ == row_pieces(sv, rv[q], spans@.len() as int),
        decreases rows@.len() - j,
    {
        let row_start = rows[j].start;
        let row_end = rows[j].end;
        assert(rv[j as int] == (row_start as int, row_end as int));
        let mut pieces: Vec<(usize, usize, usize)> = Vec::new();
        let mut i: usize = 0;
        while i < spans.len()
            invariant
                i <= spans@.len(),
                sv == ranges_view(spans@),
                rv[j as int] == (row_start as int, row_end as int),
                pieces@ == row_pieces(sv, rv[j as int], i as int),
            decreases spans@.len() - i,
        {
            assert(sv[i as int] == (spans@[i as int].start as int, spans@[i as int].end as int));
            let a = if spans[i].start > row_start {
                spans[i].start
            } else {
                row_start
            };
            let b = if spans[i].end < row_end {
                spans[i].end
            } else {
                row_end
            };
            if a < b {
                pieces.push((i, a, b));
            }
            i = i + 1;
        }
        out.push(pieces);
        assert(out@[j as int]@ == row_pieces(sv, rv[j as int], spans@.len() as int));
        j = j + 1;
    }
    out
}

} // verus!
