//! The application state machine: the file browser tree, the open page and
//! its block cursor, in-page search and the whole-graph browser filter.
//! Every transition is stated over `AppModel`, the view of an `App`.

use vstd::prelude::*;
use crate::action::Action;
use crate::filter::{candidates_from, candidates_wf};
use crate::parser::{ParsedLine, ParsedLineView, lines_view, parse_file, parsed_file};
use crate::source::{Entry, EntryView, GraphSource, SourceError, entries_view};

verus! {

/// Which pane receives navigation keys.
#[derive(Debug, Clone, Copy, PartialEq, Eq, Structural)]
pub enum Focus {
    Browser,
    Content,
}

/// One row of the file browser tree.
#[derive(Debug, Clone)]
pub struct FileItem {
    pub path: String,
    pub name: String,
    pub depth: usize,
    pub is_dir: bool,
    pub is_expanded: bool,
}

/// A `FileItem` with its strings as character sequences.
pub struct FileItemView {
    pub path: Seq<char>,
    pub name: Seq<char>,
    pub depth: usize,
    pub is_dir: bool,
    pub is_expanded: bool,
}

impl View for FileItem {
    type V = FileItemView;

    open spec fn view(&self) -> FileItemView {
        FileItemView {
            path: self.path@,
            name: self.name@,
            depth: self.depth,
            is_dir: self.is_dir,
            is_expanded: self.is_expanded,
        }
    }
}

/// The views of a sequence of file items.
pub open spec fn items_view(v: Seq<FileItem>) -> Seq<FileItemView> {
    v.map_values(|i: FileItem| i@)
}

/// An exact copy of a file item.
pub fn copy_item(i: &FileItem) -> (r: FileItem)
    ensures
        r@ == i@,
{
    FileItem {
        path: i.path.clone(),
        name: i.name.clone(),
        depth: i.depth,
        is_dir: i.is_dir,
        is_expanded: i.is_expanded,
    }
}

/// An exact copy of a list of file items.
pub fn copy_items(v: &Vec<FileItem>) -> (r: Vec<FileItem>)
    ensures
        items_view(r@) == items_view(v@),
{
    let mut r: Vec<FileItem> = Vec::new();
    let mut i: usize = 0;
    while i < v.len()
        invariant
            i <= v@.len(),
            r@.len() == i,
            forall|k: int| 0 <= k < i ==> r@[k]@ == v@[k]@,
        decreases v@.len() - i,
    {
        r.push(copy_item(&v[i]));
        i = i + 1;
    }
    assert(items_view(r@) =~= items_view(v@));
    r
}

/// The state of the viewer: a file browser over the graph at `graph_path`
/// and a content pane showing the current page.
pub struct App<S: GraphSource> {
    pub graph_path: String,
    pub focus: Focus,
    // file browser
    pub file_items: Vec<FileItem>,
    pub browser_selected: usize,
    pub browser_offset: usize,
    // content
    pub current_file: Option<String>,
    pub content_lines: Vec<ParsedLine>,
    /// The viewport's first line.
    pub content_scroll: usize,
    /// Line index of the first line of the current block (see
    /// `block_range_at`), separate from the viewport's `content_scroll`.
    pub content_cursor: usize,
    // in-page search
    pub content_search_active: bool,
    pub content_search_query: String,
    pub content_search_saved_scroll: usize,
    pub content_search_saved_cursor: usize,
    // browser filter: `/` in the browser narrows `file_items` to the pages
    // whose title or content matches the query.
    pub browser_filter_active: bool,
    pub browser_filter_query: String,
    pub browser_filter_saved_items: Vec<FileItem>,
    pub browser_filter_saved_selected: usize,
    /// (path, lowercased "title\ncontent") of every page, taken once per
    /// filter session.
    pub browser_filter_candidates: Vec<(String, String)>,
    /// Where pages are listed, read and written.
    pub source: S,
}

/// The state of an `App`, strings and lists taken by their views. The
/// graph source itself is not part of it.
#[verifier::ext_equal]
pub struct AppModel {
    pub graph_path: Seq<char>,
    pub focus: Focus,
    pub file_items: Seq<FileItemView>,
    pub browser_selected: usize,
    pub browser_offset: usize,
    pub current_file: Option<Seq<char>>,
    pub content_lines: Seq<ParsedLineView>,
    pub content_scroll: usize,
    pub content_cursor: usize,
    pub content_search_active: bool,
    pub content_search_query: Seq<char>,
    pub content_search_saved_scroll: usize,
    pub content_search_saved_cursor: usize,
    pub browser_filter_active: bool,
    pub browser_filter_query: Seq<char>,
    pub browser_filter_saved_items: Seq<FileItemView>,
    pub browser_filter_saved_selected: usize,
    pub browser_filter_candidates: Seq<(Seq<char>, Seq<char>)>,
}

/// Views of (path, text) pairs.
pub open spec fn candidates_view(v: Seq<(String, String)>) -> Seq<(Seq<char>, Seq<char>)> {
    v.map_values(|p: (String, String)| (p.0@, p.1@))
}

/// The view of an optional path.
pub open spec fn opt_view(p: Option<String>) -> Option<Seq<char>> {
    match p {
        Some(s) => Some(s@),
        None => None,
    }
}

impl<S: GraphSource> View for App<S> {
    type V = AppModel;

    open spec fn view(&self) -> AppModel {
        AppModel {
            graph_path: self.graph_path@,
            focus: self.focus,
            file_items: items_view(self.file_items@),
            browser_selected: self.browser_selected,
            browser_offset: self.browser_offset,
            current_file: opt_view(self.current_file),
            content_lines: lines_view(self.content_lines@),
            content_scroll: self.content_scroll,
            content_cursor: self.content_cursor,
            content_search_active: self.content_search_active,
            content_search_query: self.content_search_query@,
            content_search_saved_scroll: self.content_search_saved_scroll,
            content_search_saved_cursor: self.content_search_saved_cursor,
            browser_filter_active: self.browser_filter_active,
            browser_filter_query: self.browser_filter_query@,
            browser_filter_saved_items: items_view(self.browser_filter_saved_items@),
            browser_filter_saved_selected: self.browser_filter_saved_selected,
            browser_filter_candidates: candidates_view(self.browser_filter_candidates@),
        }
    }
}

// ---------------------------------------------------------------------------
// Blocks
// ---------------------------------------------------------------------------

/// The end of the block starting at `i`: the first index after `i` whose
/// indent is not greater than `base` (or the number of lines).
pub open spec fn block_end_from(lines: Seq<ParsedLineView>, base: usize, e: int) -> int
    decreases lines.len() - e,
{
    if e >= lines.len() || lines[e].indent <= base {
        e
    } else {
        block_end_from(lines, base, e + 1)
    }
}

/// The `[start, end)` range of the block starting at line `idx`: the line
/// and every following line indented deeper than it; `(idx, idx)` when
/// `idx` is past the end.
pub open spec fn block_range(lines: Seq<ParsedLineView>, idx: int) -> (int, int) {
    if idx >= lines.len() {
        (idx, idx)
    } else {
        (idx, block_end_from(lines, lines[idx].indent, idx + 1))
    }
}

pub proof fn lemma_block_end_from(lines: Seq<ParsedLineView>, base: usize, e: int)
    requires
        0 <= e <= lines.len(),
    ensures
        e <= block_end_from(lines, base, e) <= lines.len(),
        forall|k: int| e <= k < block_end_from(lines, base, e) ==> lines[k].indent > base,
        block_end_from(lines, base, e) < lines.len() ==> lines[block_end_from(lines, base, e)].indent
            <= base,
    decreases lines.len() - e,
{
    if e < lines.len() && lines[e].indent > base {
        lemma_block_end_from(lines, base, e + 1);
    }
}

/// Computes the `[start, end)` line range of the Logseq block that starts
/// at `line_idx`: the line itself plus every immediately following line
/// indented deeper than it. Every line starts a block; `(line_idx,
/// line_idx)` (an empty range) is returned when `line_idx` is out of
/// bounds.
pub fn block_range_at(lines: &[ParsedLine], line_idx: usize) -> (r: (usize, usize))
    ensures
        (r.0 as int, r.1 as int) == block_range(lines_view(lines@), line_idx as int),
{
    let ghost lv = lines_view(lines@);
    if line_idx >= lines.len() {
        return (line_idx, line_idx);
    }
    let base_indent = lines[line_idx].indent;
    let mut end = line_idx + 1;
    proof {
        lemma_block_end_from(lv, base_indent, end as int);
    }
    while end < lines.len() && lines[end].indent > base_indent
        invariant
            line_idx < end <= lines@.len(),
            lv == lines_view(lines@),
            base_indent == lv[line_idx as int].indent,
            block_end_from(lv, base_indent, line_idx + 1) == block_end_from(lv, base_indent, end as int),
        decreases lines@.len() - end,
    {
        assert(lv[end as int].indent == lines@[end as int].indent);
        end = end + 1;
    }
    proof {
        if end < lines.len() {
            assert(lv[end as int].indent == lines@[end as int].indent);
        }
    }
    (line_idx, end)
}

/// The line after `line_idx`, stopping at the last line (0 for no lines):
/// every line starts a block, and lines are kept in depth-first order, so
/// the next block is the next line.
pub open spec fn next_block(n: int, i: int) -> int {
    if n == 0 {
        0
    } else if i >= n - 1 {
        n - 1
    } else {
        i + 1
    }
}

/// The block start after `line_idx` (see `next_block`).
fn next_block_start(lines: &[ParsedLine], line_idx: usize) -> (r: usize)
    ensures
        r == next_block(lines@.len() as int, line_idx as int),
{
    if lines.len() == 0 {
        return 0;
    }
    if line_idx >= lines.len() - 1 {
        lines.len() - 1
    } else {
        line_idx + 1
    }
}

/// The block start before `line_idx`, stopping at 0.
fn prev_block_start(line_idx: usize) -> (r: usize)
    ensures
        r == if line_idx == 0 { 0 } else { line_idx - 1 },
{
    if line_idx > 0 {
        line_idx - 1
    } else {
        0
    }
}


// ---------------------------------------------------------------------------
// The browser tree
// ---------------------------------------------------------------------------

/// The last item before index `i` that is shallower than `d`.
pub open spec fn last_shallower(items: Seq<FileItemView>, d: usize, i: int) -> Option<int>
    decreases i,
{
    if i <= 0 {
        None
    } else if items[i - 1].depth < d {
        Some(i - 1)
    } else {
        last_shallower(items, d, i - 1)
    }
}

pub proof fn lemma_last_shallower(items: Seq<FileItemView>, d: usize, i: int)
    requires
        i <= items.len(),
    ensures
        last_shallower(items, d, i) matches Some(j) ==> 0 <= j < i && items[j].depth < d,
        forall|k: int|
            #![trigger items[k]]
            (match last_shallower(items, d, i) {
                Some(j) => j < k < i,
                None => 0 <= k < i,
            }) ==> items[k].depth >= d,
    decreases i,
{
    if i > 0 && items[i - 1].depth >= d {
        lemma_last_shallower(items, d, i - 1);
    }
}

/// The parent of item `idx` in the tree: the nearest earlier item that is
/// shallower, or 0 when there is none.
pub open spec fn parent_index(items: Seq<FileItemView>, idx: int) -> int {
    match last_shallower(items, items[idx].depth, idx) {
        Some(i) => i,
        None => 0,
    }
}

/// The end of the subtree under item `p` of depth `d`: the first index
/// after `p` whose depth is at most `d` (or the number of items).
pub open spec fn subtree_end(items: Seq<FileItemView>, d: usize, e: int) -> int
    decreases items.len() - e,
{
    if e >= items.len() || items[e].depth <= d {
        e
    } else {
        subtree_end(items, d, e + 1)
    }
}

pub proof fn lemma_subtree_end(items: Seq<FileItemView>, d: usize, e: int)
    requires
        0 <= e <= items.len(),
    ensures
        e <= subtree_end(items, d, e) <= items.len(),
        forall|k: int| e <= k < subtree_end(items, d, e) ==> #[trigger] items[k].depth > d,
        subtree_end(items, d, e) < items.len() ==> items[subtree_end(items, d, e)].depth <= d,
    decreases items.len() - e,
{
    if e < items.len() && items[e].depth > d {
        lemma_subtree_end(items, d, e + 1);
    }
}

/// The items without the subtree under item `idx` (its deeper successors).
pub open spec fn collapsed(items: Seq<FileItemView>, idx: int) -> Seq<FileItemView> {
    items.take(idx + 1) + items.skip(subtree_end(items, items[idx].depth, idx + 1))
}

impl AppModel {
    /// Switches the focused pane.
    pub open spec fn toggle_focus(self) -> AppModel {
        AppModel {
            focus: match self.focus {
                Focus::Browser => Focus::Content,
                Focus::Content => Focus::Browser,
            },
            ..self
        }
    }

    /// Selects the next browser item, if there is one.
    pub open spec fn browser_down(self) -> AppModel {
        AppModel {
            browser_selected: if self.browser_selected + 1 < self.file_items.len() {
                (self.browser_selected + 1) as usize
            } else {
                self.browser_selected
            },
            ..self
        }
    }

    /// Selects the previous browser item, if there is one.
    pub open spec fn browser_up(self) -> AppModel {
        AppModel {
            browser_selected: if self.browser_selected > 0 {
                (self.browser_selected - 1) as usize
            } else {
                self.browser_selected
            },
            ..self
        }
    }

    /// Moves the block cursor `amount` blocks forward, stopping at the last
    /// line.
    pub open spec fn content_down(self, amount: usize) -> AppModel {
        let n = self.content_lines.len();
        AppModel {
            content_cursor: if amount == 0 {
                self.content_cursor
            } else if n == 0 {
                0
            } else if self.content_cursor + amount >= n - 1 {
                (n - 1) as usize
            } else {
                (self.content_cursor + amount) as usize
            },
            ..self
        }
    }

    /// Moves the block cursor `amount` blocks back, stopping at 0.
    pub open spec fn content_up(self, amount: usize) -> AppModel {
        AppModel {
            content_cursor: if amount >= self.content_cursor {
                0
            } else {
                (self.content_cursor - amount) as usize
            },
            ..self
        }
    }

    /// Moves the block cursor to the first block.
    pub open spec fn content_top(self) -> AppModel {
        AppModel { content_cursor: 0, ..self }
    }

    /// Moves the block cursor to the last block.
    pub open spec fn content_bottom(self) -> AppModel {
        AppModel {
            content_cursor: if self.content_lines.len() == 0 {
                0
            } else {
                (self.content_lines.len() - 1) as usize
            },
            ..self
        }
    }

    /// Jumps to the first item of the selected item's directory; nothing
    /// happens without a selected item.
    pub open spec fn browser_top(self) -> AppModel {
        let items = self.file_items;
        let sel = self.browser_selected as int;
        if sel >= items.len() {
            self
        } else if items[sel].depth == 0 {
            AppModel { browser_selected: 0, ..self }
        } else {
            let p = parent_index(items, sel);
            if p + 1 < items.len() {
                AppModel { browser_selected: (p + 1) as usize, ..self }
            } else {
                self
            }
        }
    }

    /// Jumps to the last item of the selected item's directory; nothing
    /// happens without a selected item.
    pub open spec fn browser_bottom(self) -> AppModel {
        let items = self.file_items;
        let sel = self.browser_selected as int;
        if sel >= items.len() {
            self
        } else if items[sel].depth == 0 {
            if items.len() > 0 {
                AppModel { browser_selected: (items.len() - 1) as usize, ..self }
            } else {
                self
            }
        } else {
            let p = parent_index(items, sel);
            let end = subtree_end(items, items[p].depth, p + 1);
            if end > p + 1 {
                AppModel { browser_selected: (end - 1) as usize, ..self }
            } else {
                self
            }
        }
    }

    /// Removes the subtree under item `idx` from the tree.
    pub open spec fn collapse_dir(self, idx: int) -> AppModel {
        AppModel { file_items: collapsed(self.file_items, idx), ..self }
    }

    /// `h` in the browser: an expanded directory is collapsed; any other
    /// item moves the selection to its parent directory.
    pub open spec fn collapse_or_jump_parent(self) -> AppModel {
        let items = self.file_items;
        let sel = self.browser_selected as int;
        if sel >= items.len() {
            self
        } else if items[sel].is_dir && items[sel].is_expanded {
            let folded = items.update(sel, FileItemView { is_expanded: false, ..items[sel] });
            AppModel { file_items: collapsed(folded, sel), ..self }
        } else if items[sel].depth == 0 {
            self
        } else {
            match last_shallower(items, items[sel].depth, sel) {
                Some(i) => AppModel { browser_selected: i as usize, ..self },
                None => self,
            }
        }
    }

    /// Scrolls the browser just enough for the selection to be visible in
    /// `visible_height` rows.
    pub open spec fn clamp_browser_scroll(self, visible_height: usize) -> AppModel {
        if self.browser_selected < self.browser_offset {
            AppModel { browser_offset: self.browser_selected, ..self }
        } else if self.browser_selected >= self.browser_offset + visible_height {
            AppModel {
                browser_offset: (self.browser_selected + 1 - visible_height) as usize,
                ..self
            }
        } else {
            self
        }
    }
}

impl<S: GraphSource> App<S> {
    /// Switches focus between the browser and the content pane.
    pub fn toggle_focus(&mut self)
        ensures
            final(self)@ == old(self)@.toggle_focus(),
            final(self).source == old(self).source,
    {
        self.focus = match self.focus {
            Focus::Browser => Focus::Content,
            Focus::Content => Focus::Browser,
        };
    }

    /// Selects the next item in the browser, if any.
    pub fn browser_down(&mut self)
        ensures
            final(self)@ == old(self)@.browser_down(),
            final(self).source == old(self).source,
    {
        if self.browser_selected < self.file_items.len() && self.browser_selected + 1
            < self.file_items.len() {
            self.browser_selected = self.browser_selected + 1;
        }
    }

    /// Selects the previous item in the browser, if any.
    pub fn browser_up(&mut self)
        ensures
            final(self)@ == old(self)@.browser_up(),
            final(self).source == old(self).source,
    {
        if self.browser_selected > 0 {
            self.browser_selected = self.browser_selected - 1;
        }
    }

    /// Moves the block cursor forward `amount` blocks (see
    /// `next_block_start`). `content_scroll` is untouched: it follows the
    /// cursor at render time (`clamp_content_cursor_scroll`).
    pub fn content_down(&mut self, amount: usize)
        ensures
            final(self)@ == old(self)@.content_down(amount),
            final(self).source == old(self).source,
    {
        let ghost m0 = self@;
        let n = self.content_lines.len();
        let mut k: usize = 0;
        while k < amount
            invariant
                k <= amount,
                n == self.content_lines@.len(),
                self@ == m0.content_down(k),
                self.source == old(self).source,
            decreases amount - k,
        {
            let ghost c0 = self.content_cursor;
            let ghost k0 = k;
            assert(c0 == m0.content_down(k0).content_cursor);
            assert(self.content_lines@.len() == m0.content_lines.len());
            self.content_cursor = next_block_start(self.content_lines.as_slice(), self.content_cursor);
            k = k + 1;
            assert(self.content_cursor == m0.content_down(k).content_cursor);
            assert(self@ =~= m0.content_down(k));
        }
    }

    /// Moves the block cursor back `amount` blocks. See `content_down`.
    pub fn content_up(&mut self, amount: usize)
        ensures
            final(self)@ == old(self)@.content_up(amount),
            final(self).source == old(self).source,
    {
        let ghost m0 = self@;
        let mut k: usize = 0;
        while k < amount
            invariant
                k <= amount,
                self@ == m0.content_up(k),
                self.source == old(self).source,
            decreases amount - k,
        {
            self.content_cursor = prev_block_start(self.content_cursor);
            k = k + 1;
            assert(self@ =~= m0.content_up(k));
        }
    }

    /// Moves the block cursor to the first block.
    pub fn content_top(&mut self)
        ensures
            final(self)@ == old(self)@.content_top(),
            final(self).source == old(self).source,
    {
        self.content_cursor = 0;
    }

    /// Moves the block cursor to the last block.
    pub fn content_bottom(&mut self)
        ensures
            final(self)@ == old(self)@.content_bottom(),
            final(self).source == old(self).source,
    {
        self.content_cursor = if self.content_lines.len() == 0 {
            0
        } else {
            self.content_lines.len() - 1
        };
    }

    /// The parent of item `idx` (see `parent_index`).
    fn find_parent_index(&self, idx: usize) -> (r: usize)
        requires
            idx < self.file_items@.len(),
        ensures
            r == parent_index(self@.file_items, idx as int),
    {
        let ghost items = self@.file_items;
        let depth = self.file_items[idx].depth;
        assert(items[idx as int].depth == depth);
        let mut i: usize = idx;
        while i > 0
            invariant
                i <= idx < self.file_items@.len(),
                items == self@.file_items,
                items[idx as int].depth == depth,
                last_shallower(items, depth, idx as int) == last_shallower(items, depth, i as int),
            decreases i,
        {
            assert(items[i - 1].depth == self.file_items@[i - 1].depth);
            if self.file_items[i - 1].depth < depth {
                return i - 1;
            }
            i = i - 1;
        }
        0
    }

    /// The end of the subtree under item `parent_idx` (see `subtree_end`).
    fn find_subtree_end(&self, parent_idx: usize, parent_depth: usize) -> (r: usize)
        requires
            parent_idx < self.file_items@.len(),
        ensures
            r == subtree_end(self@.file_items, parent_depth, parent_idx + 1),
    {
        let ghost items = self@.file_items;
        let n = self.file_items.len();
        let mut end = parent_idx + 1;
        while end < self.file_items.len() && self.file_items[end].depth > parent_depth
            invariant
                parent_idx < end <= self.file_items@.len(),
                items == self@.file_items,
                subtree_end(items, parent_depth, parent_idx + 1) == subtree_end(
                    items,
                    parent_depth,
                    end as int,
                ),
            decreases self.file_items@.len() - end,
        {
            assert(items[end as int].depth == self.file_items@[end as int].depth);
            end = end + 1;
        }
        proof {
            if end < self.file_items.len() {
                assert(items[end as int].depth == self.file_items@[end as int].depth);
            }
        }
        end
    }

    /// Jumps to the first item of the selected item's directory (the very
    /// first item at the top level). Nothing happens without a selected
    /// item (an empty list, as after a filter that matched nothing).
    pub fn browser_top(&mut self)
        ensures
            final(self)@ == old(self)@.browser_top(),
            final(self).source == old(self).source,
    {
        if self.browser_selected >= self.file_items.len() {
            return;
        }
        let selected_depth = self.file_items[self.browser_selected].depth;
        if selected_depth == 0 {
            self.browser_selected = 0;
        } else {
            let parent_idx = self.find_parent_index(self.browser_selected);
            proof {
                lemma_last_shallower(self@.file_items, selected_depth, self.browser_selected as int);
            }
            if parent_idx + 1 < self.file_items.len() {
                self.browser_selected = parent_idx + 1;
            }
        }
    }

    /// Jumps to the last item of the selected item's directory (the very
    /// last item at the top level). Nothing happens without a selected
    /// item (an empty list, as after a filter that matched nothing).
    pub fn browser_bottom(&mut self)
        ensures
            final(self)@ == old(self)@.browser_bottom(),
            final(self).source == old(self).source,
    {
        if self.browser_selected >= self.file_items.len() {
            return;
        }
        let selected_depth = self.file_items[self.browser_selected].depth;
        if selected_depth == 0 {
            if self.file_items.len() > 0 {
                self.browser_selected = self.file_items.len() - 1;
            }
        } else {
            let parent_idx = self.find_parent_index(self.browser_selected);
            proof {
                lemma_last_shallower(self@.file_items, selected_depth, self.browser_selected as int);
            }
            let parent_depth = self.file_items[parent_idx].depth;
            let end = self.find_subtree_end(parent_idx, parent_depth);
            if end > parent_idx + 1 {
                self.browser_selected = end - 1;
            }
        }
    }

    /// Removes the items under directory `idx` (its deeper successors).
    pub fn collapse_dir(&mut self, idx: usize)
        requires
            idx < old(self).file_items@.len(),
        ensures
            final(self)@ == old(self)@.collapse_dir(idx as int),
            final(self).source == old(self).source,
    {
        let ghost m0 = self@;
        let depth = self.file_items[idx].depth;
        let end = self.find_subtree_end(idx, depth);
        proof {
            lemma_subtree_end(m0.file_items, depth, idx + 1);
        }
        let mut kept: Vec<FileItem> = Vec::new();
        let mut i: usize = 0;
        while i < self.file_items.len()
            invariant
                idx < end <= self.file_items@.len(),
                m0 == self@,
                i <= self.file_items@.len(),
                items_view(kept@) == if i <= idx + 1 {
                    m0.file_items.take(i as int)
                } else if i <= end {
                    m0.file_items.take(idx + 1)
                } else {
                    m0.file_items.take(idx + 1) + m0.file_items.subrange(end as int, i as int)
                },
            decreases self.file_items@.len() - i,
        {
            let ghost before = items_view(kept@);
            if i <= idx || i >= end {
                kept.push(copy_item(&self.file_items[i]));
                assert(items_view(kept@) =~= before.push(m0.file_items[i as int]));
            }
            i = i + 1;
            proof {
                if i <= idx + 1 {
                    assert(m0.file_items.take(i as int) =~= m0.file_items.take(i - 1).push(
                        m0.file_items[i - 1],
                    ));
                } else if i > end {
                    if i - 1 == end {
                        assert(m0.file_items.subrange(end as int, i as int) =~= seq![
                            m0.file_items[i - 1],
                        ]);
                        assert(m0.file_items.subrange(end as int, i - 1) =~= Seq::<
                            FileItemView,
                        >::empty());
                    }
                    assert(m0.file_items.subrange(end as int, i as int) =~= m0.file_items.subrange(
                        end as int,
                        i - 1,
                    ).push(m0.file_items[i - 1]));
                }
            }
        }
        self.file_items = kept;
        proof {
            assert(m0.file_items.subrange(end as int, m0.file_items.len() as int) =~= m0.file_items.skip(
                end as int,
            ));
            if end == m0.file_items.len() {
                assert(m0.file_items.skip(end as int) =~= Seq::<FileItemView>::empty());
                assert(m0.file_items.take(idx + 1) + Seq::<FileItemView>::empty() =~= m0.file_items.take(
                    idx + 1,
                ));
            }
        }
        assert(self@ =~= m0.collapse_dir(idx as int));
    }

    /// `h` in the browser: collapses an expanded directory, otherwise moves
    /// the selection to the parent directory.
    pub fn collapse_or_jump_parent(&mut self)
        ensures
            final(self)@ == old(self)@.collapse_or_jump_parent(),
            final(self).source == old(self).source,
    {
        if self.browser_selected >= self.file_items.len() {
            return;
        }
        let idx = self.browser_selected;
        assert(self@.file_items[idx as int] == self.file_items@[idx as int]@);
        let is_dir = self.file_items[idx].is_dir;
        let is_expanded = self.file_items[idx].is_expanded;
        let depth = self.file_items[idx].depth;
        if is_dir && is_expanded {
            let ghost m0 = self@;
            let mut item = copy_item(&self.file_items[idx]);
            item.is_expanded = false;
            self.file_items.set(idx, item);
            assert(self@.file_items =~= m0.file_items.update(
                idx as int,
                FileItemView { is_expanded: false, ..m0.file_items[idx as int] },
            ));
            assert(self@ =~= AppModel {
                file_items: m0.file_items.update(
                    idx as int,
                    FileItemView { is_expanded: false, ..m0.file_items[idx as int] },
                ),
                ..m0
            });
            self.collapse_dir(idx);
        } else {
            if depth == 0 {
                return;
            }
            let ghost items = self@.file_items;
            assert(items[idx as int].depth == depth);
            assert(!(items[idx as int].is_dir && items[idx as int].is_expanded));
            let mut i: usize = idx;
            while i > 0
                invariant
                    i <= idx < self.file_items@.len(),
                    items == self@.file_items,
                    self@ == old(self)@,
                    self.source == old(self).source,
                    items[idx as int].depth == depth,
                    depth != 0,
                    !(items[idx as int].is_dir && items[idx as int].is_expanded),
                    self.browser_selected == idx,
                    last_shallower(items, depth, idx as int) == last_shallower(items, depth, i as int),
                decreases i,
            {
                assert(items[i - 1].depth == self.file_items@[i - 1].depth);
                if self.file_items[i - 1].depth < depth {
                    self.browser_selected = i - 1;
                    assert(self@ =~= AppModel { browser_selected: (i - 1) as usize, ..old(self)@ });
                    return;
                }
                i = i - 1;
            }
        }
    }

    /// Scrolls the browser so the selection is among the `visible_height`
    /// rows shown.
    pub fn clamp_browser_scroll(&mut self, visible_height: usize)
        requires
            visible_height > 0 || old(self).browser_selected < usize::MAX,
        ensures
            final(self)@ == old(self)@.clamp_browser_scroll(visible_height),
            final(self).source == old(self).source,
    {
        if self.browser_selected < self.browser_offset {
            self.browser_offset = self.browser_selected;
        } else if self.browser_selected - self.browser_offset >= visible_height {
            self.browser_offset = if visible_height == 0 {
                self.browser_selected + 1
            } else {
                self.browser_selected - visible_height + 1
            };
        }
    }
}


// ---------------------------------------------------------------------------
// Loading the tree and pages through the graph source
// ---------------------------------------------------------------------------

/// The browser item for a listed entry, at `depth`, collapsed.
pub open spec fn item_of_entry(e: EntryView, depth: usize) -> FileItemView {
    FileItemView { path: e.path, name: e.name, depth, is_dir: e.is_dir, is_expanded: false }
}

/// The browser items for listed entries, at `depth`.
pub open spec fn items_of_entries(es: Seq<EntryView>, depth: usize) -> Seq<FileItemView> {
    es.map_values(|e: EntryView| item_of_entry(e, depth))
}

/// The browser item for `entry` at `depth`, collapsed.
pub fn make_file_item_from_entry(entry: Entry, depth: usize) -> (r: FileItem)
    ensures
        r@ == item_of_entry(entry@, depth),
{
    FileItem {
        path: entry.path,
        name: entry.name,
        depth,
        is_dir: entry.is_dir,
        is_expanded: false,
    }
}

/// The browser items for `entries`, in order, at `depth`.
pub fn items_from_entries(entries: Vec<Entry>, depth: usize) -> (r: Vec<FileItem>)
    ensures
        items_view(r@) == items_of_entries(entries_view(entries@), depth),
{
    let ghost es = entries_view(entries@);
    let ghost all = entries@;
    let mut out: Vec<FileItem> = Vec::new();
    let mut rest = entries;
    while rest.len() > 0
        invariant
            rest@.len() + out@.len() == all.len(),
            rest@ == all.skip(out@.len() as int),
            es == entries_view(all),
            items_view(out@) == items_of_entries(es.take(out@.len() as int), depth),
        decreases rest@.len(),
    {
        let ghost k: int = out@.len() as int;
        let e = rest.remove(0);
        proof {
            assert(e == all[k]);
            assert(es[k] == e@);
        }
        let ghost prev = items_view(out@);
        let ghost old_out = out@;
        out.push(make_file_item_from_entry(e, depth));
        assert(rest@ =~= all.skip(out@.len() as int));
        assert(es.take(k + 1) =~= es.take(k).push(es[k]));
        assert(items_view(out@) =~= prev.push(item_of_entry(es[k], depth))) by {
            assert(out@ =~= old_out.push(out@[k]));
        }
        assert(items_of_entries(es.take(k + 1), depth) =~= items_of_entries(es.take(k), depth).push(
            item_of_entry(es[k], depth),
        ));
        assert(items_view(out@) =~= items_of_entries(es.take(out@.len() as int), depth));
    }
    assert(es.take(es.len() as int) =~= es);
    out
}

impl AppModel {
    /// The top-level tree listed from `entries`.
    pub open spec fn with_tree(self, entries: Seq<EntryView>) -> AppModel {
        AppModel { file_items: items_of_entries(entries, 0), ..self }
    }

    /// Directory `idx` expanded with its listed `entries` right under it,
    /// one level deeper.
    pub open spec fn with_children(self, idx: int, entries: Seq<EntryView>) -> AppModel {
        let items = self.file_items;
        AppModel {
            file_items: items.take(idx + 1) + items_of_entries(
                entries,
                (items[idx].depth + 1) as usize,
            ) + items.skip(idx + 1),
            ..self
        }
    }

    /// Page `path` shown from the top with the lines parsed from `content`.
    pub open spec fn with_page(self, path: Seq<char>, content: Seq<char>) -> AppModel {
        AppModel {
            content_lines: parsed_file(content),
            current_file: Some(path),
            content_scroll: 0,
            content_cursor: 0,
            ..self
        }
    }

    /// Page `path` shown from the top with the lines parsed from `content`,
    /// the content pane focused.
    pub open spec fn with_opened_page(self, path: Seq<char>, content: Seq<char>) -> AppModel {
        AppModel { focus: Focus::Content, ..self.with_page(path, content) }
    }

    /// The current page re-parsed from `content`, keeping the view and
    /// cursor where possible (clamped to the new last line).
    pub open spec fn with_reloaded(self, content: Seq<char>) -> AppModel {
        let lines = parsed_file(content);
        let max: int = if lines.len() == 0 { 0 } else { lines.len() - 1 };
        AppModel {
            content_lines: lines,
            content_scroll: if self.content_scroll <= max { self.content_scroll } else { max as usize },
            content_cursor: if self.content_cursor <= max { self.content_cursor } else { max as usize },
            ..self
        }
    }

    /// Item `idx` with its expanded flag flipped.
    pub open spec fn toggle_expanded(self, idx: int) -> AppModel {
        let items = self.file_items;
        AppModel {
            file_items: items.update(
                idx,
                FileItemView { is_expanded: !items[idx].is_expanded, ..items[idx] },
            ),
            ..self
        }
    }
}

impl<S: GraphSource> App<S> {
    /// Replaces the browser tree with the top-level `entries`.
    pub fn set_file_tree(&mut self, entries: Vec<Entry>)
        ensures
            final(self)@ == old(self)@.with_tree(entries_view(entries@)),
            final(self).source == old(self).source,
    {
        self.file_items = items_from_entries(entries, 0);
        assert(self@ =~= old(self)@.with_tree(entries_view(entries@)));
    }

    /// Lists the graph's top level into the browser tree. On failure the
    /// tree is left empty.
    pub fn build_file_tree(&mut self) -> (r: Result<(), SourceError>)
        ensures
            r is Ok ==> exists|es: Seq<EntryView>|
                old(self).source.lists(old(self).graph_path@, es) && final(self)@ == #[trigger] old(
                    self,
                )@.with_tree(es),
            r is Err ==> final(self)@ == old(self)@.with_tree(seq![]),
            final(self).source == old(self).source,
    {
        self.file_items = Vec::new();
        assert(self@ =~= old(self)@.with_tree(seq![]));
        let entries = self.source.children(self.graph_path.as_str())?;
        let ghost es = entries_view(entries@);
        self.set_file_tree(entries);
        assert(self@ =~= old(self)@.with_tree(es));
        assert(old(self).source.lists(old(self).graph_path@, es));
        Ok(())
    }

    /// A viewer for the graph at `graph_path`, its top level listed in the
    /// browser.
    pub fn new(graph_path: String, source: S) -> (r: Result<Self, SourceError>)
        ensures
            r matches Ok(app) ==> app.source == source && exists|es: Seq<EntryView>|
                source.lists(graph_path@, es) && app@ == #[trigger] initial_model(graph_path@).with_tree(es),
    {
        let mut app = App {
            graph_path,
            focus: Focus::Browser,
            file_items: Vec::new(),
            browser_selected: 0,
            browser_offset: 0,
            current_file: None,
            content_lines: Vec::new(),
            content_scroll: 0,
            content_cursor: 0,
            content_search_active: false,
            content_search_query: String::new(),
            content_search_saved_scroll: 0,
            content_search_saved_cursor: 0,
            browser_filter_active: false,
            browser_filter_query: String::new(),
            browser_filter_saved_items: Vec::new(),
            browser_filter_saved_selected: 0,
            browser_filter_candidates: Vec::new(),
            source,
        };
        assert(app@ =~= initial_model(app.graph_path@));
        app.build_file_tree()?;
        Ok(app)
    }

    /// Inserts the listed `entries` of directory `parent_idx` right under
    /// it, one level deeper.
    pub fn insert_children(&mut self, parent_idx: usize, entries: Vec<Entry>)
        requires
            parent_idx < old(self).file_items@.len(),
            old(self).file_items@[parent_idx as int].depth < usize::MAX,
        ensures
            final(self)@ == old(self)@.with_children(parent_idx as int, entries_view(entries@)),
            final(self).source == old(self).source,
    {
        let ghost m0 = self@;
        let parent_depth = self.file_items[parent_idx].depth;
        let kids = items_from_entries(entries, parent_depth + 1);
        let mut out: Vec<FileItem> = Vec::new();
        let mut i: usize = 0;
        while i < self.file_items.len()
            invariant
                m0 == self@,
                parent_idx < self.file_items@.len(),
                parent_depth == m0.file_items[parent_idx as int].depth,
                i <= self.file_items@.len(),
                items_view(out@) == if i <= parent_idx {
                    m0.file_items.take(i as int)
                } else {
                    m0.file_items.take(parent_idx + 1) + items_view(kids@) + m0.file_items.subrange(
                        parent_idx + 1,
                        i as int,
                    )
                },
            decreases self.file_items@.len() - i,
        {
            let ghost before = items_view(out@);
            out.push(copy_item(&self.file_items[i]));
            assert(items_view(out@) =~= before.push(m0.file_items[i as int]));
            if i == parent_idx {
                let mut k: usize = 0;
                let ghost base = items_view(out@);
                while k < kids.len()
                    invariant
                        k <= kids@.len(),
                        items_view(out@) == base + items_view(kids@).take(k as int),
                    decreases kids@.len() - k,
                {
                    let ghost b2 = items_view(out@);
                    out.push(copy_item(&kids[k]));
                    assert(items_view(out@) =~= b2.push(kids@[k as int]@));
                    assert(items_view(kids@).take(k + 1) =~= items_view(kids@).take(k as int).push(
                        kids@[k as int]@,
                    ));
                    k = k + 1;
                }
                assert(items_view(kids@).take(kids@.len() as int) =~= items_view(kids@));
            }
            i = i + 1;
            proof {
                if i <= parent_idx {
                    assert(m0.file_items.take(i as int) =~= m0.file_items.take(i - 1).push(
                        m0.file_items[i - 1],
                    ));
                } else if i == parent_idx + 1 {
                    assert(m0.file_items.take(i as int) =~= m0.file_items.take(i - 1).push(
                        m0.file_items[i - 1],
                    ));
                    assert(m0.file_items.subrange(parent_idx + 1, i as int) =~= Seq::<
                        FileItemView,
                    >::empty());
                } else {
                    assert(m0.file_items.subrange(parent_idx + 1, i as int) =~= m0.file_items.subrange(
                        parent_idx + 1,
                        i - 1,
                    ).push(m0.file_items[i - 1]));
                }
            }
        }
        self.file_items = out;
        assert(m0.file_items.subrange(parent_idx + 1, m0.file_items.len() as int) =~= m0.file_items.skip(
            parent_idx + 1,
        ));
        assert(self@ =~= m0.with_children(parent_idx as int, entries_view(entries@)));
    }

    /// Lists directory `dir` and inserts its entries under item
    /// `parent_idx`.
    pub fn expand_dir(&mut self, parent_idx: usize, dir: &str) -> (r: Result<(), SourceError>)
        requires
            parent_idx < old(self).file_items@.len(),
            old(self).file_items@[parent_idx as int].depth < usize::MAX,
        ensures
            r is Ok ==> exists|es: Seq<EntryView>|
                old(self).source.lists(dir@, es) && final(self)@ == #[trigger] old(self)@.with_children(
                    parent_idx as int,
                    es,
                ),
            r is Err ==> final(self)@ == old(self)@,
            final(self).source == old(self).source,
    {
        let entries = self.source.children(dir)?;
        let ghost es = entries_view(entries@);
        self.insert_children(parent_idx, entries);
        assert(old(self).source.lists(dir@, es));
        Ok(())
    }

    /// Shows page `path` with the given `content`, from the top.
    pub fn show_page(&mut self, path: &str, content: &str)
        ensures
            final(self)@ == old(self)@.with_page(path@, content@),
            final(self).source == old(self).source,
    {
        self.content_lines = parse_file(content);
        self.current_file = Some(path.to_owned());
        self.content_scroll = 0;
        self.content_cursor = 0;
        assert(self@ =~= old(self)@.with_page(path@, content@));
    }

    /// Reads page `path` through the source and shows it from the top.
    pub fn load_file(&mut self, path: &str) -> (r: Result<(), SourceError>)
        ensures
            r is Ok ==> exists|c: Seq<char>|
                old(self).source.reads(path@, c) && final(self)@ == #[trigger] old(self)@.with_page(
                    path@,
                    c,
                ),
            r is Err ==> final(self)@ == old(self)@,
            final(self).source == old(self).source,
    {
        let content = self.source.read(path)?;
        self.show_page(path, content.as_str());
        assert(old(self).source.reads(path@, content@));
        Ok(())
    }

    /// Re-parses the current page from `content`, keeping the view and
    /// cursor where possible.
    pub fn reload_with(&mut self, content: &str)
        ensures
            final(self)@ == old(self)@.with_reloaded(content@),
            final(self).source == old(self).source,
    {
        self.content_lines = parse_file(content);
        let n = self.content_lines.len();
        let max = if n == 0 { 0 } else { n - 1 };
        if self.content_scroll > max {
            self.content_scroll = max;
        }
        if self.content_cursor > max {
            self.content_cursor = max;
        }
        assert(self@ =~= old(self)@.with_reloaded(content@));
    }

    /// Re-reads and re-parses the current page (after an outside edit),
    /// keeping the scroll position where possible instead of going back to
    /// the top. Nothing happens without a current page.
    pub fn reload_current_file(&mut self) -> (r: Result<(), SourceError>)
        ensures
            old(self).current_file is None ==> r is Ok && final(self)@ == old(self)@,
            old(self).current_file is Some && r is Ok ==> exists|c: Seq<char>|
                old(self).source.reads(old(self).current_file.unwrap()@, c) && final(self)@ == #[trigger] old(self)@.with_reloaded(
                    c,
                ),
            r is Err ==> final(self)@ == old(self)@,
            final(self).source == old(self).source,
    {
        let path = match &self.current_file {
            Some(p) => p.clone(),
            None => return Ok(()),
        };
        let content = self.source.read(path.as_str())?;
        self.reload_with(content.as_str());
        assert(old(self).source.reads(path@, content@));
        Ok(())
    }

    /// Reads `path` through the graph source.
    pub fn read_file(&self, path: &str) -> (r: Result<String, SourceError>)
        ensures
            r matches Ok(c) ==> self.source.reads(path@, c@),
    {
        self.source.read(path)
    }

    /// Writes `contents` to `path` through the graph source.
    pub fn write_file(&mut self, path: &str, contents: &str) -> (r: Result<(), SourceError>)
        ensures
            final(self)@ == old(self)@,
            r is Ok ==> final(self).source.reads(path@, contents@),
    {
        self.source.write(path, contents)
    }

    /// Enter in the browser: a directory is expanded (listing its entries)
    /// or collapsed; a page is loaded and the content pane focused. Nothing
    /// happens without a selected item.
    pub fn open_selected(&mut self) -> (r: Result<(), SourceError>)
        requires
            old(self).browser_selected < old(self).file_items@.len() && old(self).file_items@[old(
                self,
            ).browser_selected as int].is_dir && !old(self).file_items@[old(
                self,
            ).browser_selected as int].is_expanded ==> old(self).file_items@[old(
                self,
            ).browser_selected as int].depth < usize::MAX,
        ensures
            final(self).source == old(self).source,
            open_selected_outcome(old(self).source, old(self)@, final(self)@, r is Ok),
    {
        let ghost m = self@;
        if self.browser_selected >= self.file_items.len() {
            return Ok(());
        }
        let idx = self.browser_selected;
        assert(m.file_items[idx as int] == self.file_items@[idx as int]@);
        if self.file_items[idx].is_dir {
            let path = self.file_items[idx].path.clone();
            let is_expanded = self.file_items[idx].is_expanded;
            let mut item = copy_item(&self.file_items[idx]);
            item.is_expanded = !is_expanded;
            self.file_items.set(idx, item);
            assert(self@ =~= m.toggle_expanded(idx as int));
            if is_expanded {
                self.collapse_dir(idx);
            } else {
                self.expand_dir(idx, path.as_str())?;
            }
        } else {
            let path = self.file_items[idx].path.clone();
            self.load_file(path.as_str())?;
            let ghost loaded = self@;
            self.focus = Focus::Content;
            proof {
                let c = choose|c: Seq<char>|
                    old(self).source.reads(path@, c) && loaded == #[trigger] m.with_page(path@, c);
                assert(self@ =~= m.with_opened_page(path@, c));
                assert(old(self).source.reads(m.file_items[idx as int].path, c));
            }
        }
        Ok(())
    }
}

/// The state of a new viewer on the graph at `graph_path`, before its top
/// level is listed.
pub open spec fn initial_model(graph_path: Seq<char>) -> AppModel {
    AppModel {
        graph_path,
        focus: Focus::Browser,
        file_items: seq![],
        browser_selected: 0,
        browser_offset: 0,
        current_file: None,
        content_lines: seq![],
        content_scroll: 0,
        content_cursor: 0,
        content_search_active: false,
        content_search_query: seq![],
        content_search_saved_scroll: 0,
        content_search_saved_cursor: 0,
        browser_filter_active: false,
        browser_filter_query: seq![],
        browser_filter_saved_items: seq![],
        browser_filter_saved_selected: 0,
        browser_filter_candidates: seq![],
    }
}


// ---------------------------------------------------------------------------
// Keeping the content view on screen
// ---------------------------------------------------------------------------

/// The rows taken by lines `[a, b)`, given each line's row count.
pub open spec fn rows_sum(rc: Seq<usize>, a: int, b: int) -> int
    decreases b - a,
{
    if a >= b {
        0
    } else {
        rows_sum(rc, a, b - 1) + rc[b - 1]
    }
}

/// Row counts add up over adjacent ranges, and never go negative.
pub proof fn lemma_rows_sum_split(rc: Seq<usize>, a: int, m: int, b: int)
    requires
        a <= m <= b,
    ensures
        rows_sum(rc, a, b) == rows_sum(rc, a, m) + rows_sum(rc, m, b),
        rows_sum(rc, a, m) >= 0,
        rows_sum(rc, m, b) >= 0,
    decreases b - m,
{
    if m < b {
        lemma_rows_sum_split(rc, a, m, b - 1);
    } else {
        lemma_rows_sum_nonneg(rc, a, m);
    }
}

/// One line's rows.
pub proof fn lemma_rows_sum_one(rc: Seq<usize>, a: int)
    ensures
        rows_sum(rc, a, a + 1) == rc[a],
{
    assert(rows_sum(rc, a, a) == 0);
}

pub proof fn lemma_rows_sum_nonneg(rc: Seq<usize>, a: int, b: int)
    ensures
        rows_sum(rc, a, b) >= 0,
    decreases b - a,
{
    if a < b {
        lemma_rows_sum_nonneg(rc, a, b - 1);
    }
}

/// Going back from `s`, the first start whose lines to the end fill at
/// least `vh` rows (or 0).
pub open spec fn pull_back(rc: Seq<usize>, n: int, vh: int, s: int) -> int
    decreases s,
{
    if s <= 0 || rows_sum(rc, s, n) >= vh {
        s
    } else {
        pull_back(rc, n, vh, s - 1)
    }
}

/// Going back from line `idx` towards `scroll`, the first line from which
/// the lines through the cursor `c` take more than `vh` rows.
pub open spec fn overflow_line(rc: Seq<usize>, vh: int, c: int, scroll: int, idx: int) -> Option<
    int,
>
    decreases idx - scroll,
{
    if rows_sum(rc, idx, c + 1) > vh {
        Some(idx)
    } else if idx <= scroll {
        None
    } else {
        overflow_line(rc, vh, c, scroll, idx - 1)
    }
}

impl AppModel {
    /// Pulls the view back when it would leave the viewport short of lines:
    /// the first line is kept on the page, and when the page needs more
    /// than `vh` rows the lines from the view's top to the end fill them.
    pub open spec fn clamp_content_scroll(self, vh: usize, rc: Seq<usize>) -> AppModel {
        let n = self.content_lines.len() as int;
        if n == 0 {
            AppModel { content_scroll: 0, ..self }
        } else {
            let s1 = if self.content_scroll < n - 1 { self.content_scroll as int } else { n - 1 };
            if rows_sum(rc, 0, n) <= vh {
                AppModel { content_scroll: s1 as usize, ..self }
            } else {
                AppModel { content_scroll: pull_back(rc, n, vh as int, s1) as usize, ..self }
            }
        }
    }

    /// Moves the view so the cursor's line is on screen: up to it when it
    /// is above; down just far enough when the lines from the view's top
    /// through the cursor's line take more than `vh` rows.
    pub open spec fn clamp_content_cursor_scroll(self, vh: usize, rc: Seq<usize>) -> AppModel {
        let n = self.content_lines.len() as int;
        if n == 0 {
            self
        } else {
            let c = if self.content_cursor < n - 1 { self.content_cursor as int } else { n - 1 };
            let s = self.content_scroll as int;
            if c < s {
                AppModel { content_scroll: c as usize, ..self }
            } else {
                match overflow_line(rc, vh as int, c, s, c) {
                    Some(i) => {
                        let t = if i + 1 < c { i + 1 } else { c };
                        AppModel { content_scroll: (if s < t { t } else { s }) as usize, ..self }
                    },
                    None => self,
                }
            }
        }
    }
}

impl<S: GraphSource> App<S> {
    /// Pulls `content_scroll` back just far enough that the lines from it
    /// to the end fill `visible_height` rows, when the page has more rows
    /// than that. `row_counts[i]` is the wrapped-row count of line `i` (see
    /// `parser::line_row_count`).
    pub fn clamp_content_scroll(&mut self, visible_height: usize, row_counts: &[usize])
        requires
            row_counts@.len() == old(self).content_lines@.len(),
            rows_sum(row_counts@, 0, row_counts@.len() as int) <= usize::MAX,
        ensures
            final(self)@ == old(self)@.clamp_content_scroll(visible_height, row_counts@),
            final(self).source == old(self).source,
    {
        let ghost rc = row_counts@;
        let total = self.content_lines.len();
        let ghost n = total as int;
        if total == 0 {
            self.content_scroll = 0;
            assert(self@ =~= old(self)@.clamp_content_scroll(visible_height, rc));
            return;
        }
        if self.content_scroll > total - 1 {
            self.content_scroll = total - 1;
        }
        let s1 = self.content_scroll;
        let mut total_rows: usize = 0;
        let mut j: usize = 0;
        while j < total
            invariant
                j <= total == row_counts@.len(),
                rc == row_counts@,
                total_rows == rows_sum(rc, 0, j as int),
                rows_sum(rc, 0, total as int) <= usize::MAX,
            decreases total - j,
        {
            proof {
                lemma_rows_sum_split(rc, 0, j + 1, total as int);
            }
            total_rows = total_rows + row_counts[j];
            j = j + 1;
        }
        if total_rows <= visible_height {
            assert(self@ =~= old(self)@.clamp_content_scroll(visible_height, rc));
            return;
        }
        let mut rows: usize = 0;
        let mut k: usize = s1;
        while k < total && rows < visible_height
            invariant
                s1 <= k <= total == row_counts@.len(),
                rc == row_counts@,
                rows == rows_sum(rc, s1 as int, k as int),
                rows_sum(rc, 0, total as int) <= usize::MAX,
            decreases total - k,
        {
            proof {
                lemma_rows_sum_split(rc, 0, s1 as int, total as int);
                lemma_rows_sum_split(rc, s1 as int, k + 1, total as int);
            }
            rows = rows + row_counts[k];
            k = k + 1;
        }
        if rows >= visible_height {
            proof {
                lemma_rows_sum_split(rc, s1 as int, k as int, total as int);
            }
            assert(self@ =~= old(self)@.clamp_content_scroll(visible_height, rc));
            return;
        }
        let ghost m1 = self@;
        while self.content_scroll > 0 && rows < visible_height
            invariant
                self.content_scroll <= s1 < total == row_counts@.len(),
                n == total as int,
                rc == row_counts@,
                rows == rows_sum(rc, self.content_scroll as int, total as int),
                pull_back(rc, n, visible_height as int, s1 as int) == pull_back(
                    rc,
                    n,
                    visible_height as int,
                    self.content_scroll as int,
                ),
                self@ == (AppModel { content_scroll: self.content_scroll, ..m1 }),
                self.source == old(self).source,
                rows_sum(rc, 0, total as int) <= usize::MAX,
            decreases self.content_scroll,
        {
            proof {
                lemma_rows_sum_split(rc, self.content_scroll - 1, self.content_scroll as int, total as int);
                lemma_rows_sum_split(rc, 0, self.content_scroll - 1, total as int);
                lemma_rows_sum_one(rc, self.content_scroll - 1);
            }
            self.content_scroll = self.content_scroll - 1;
            rows = rows + row_counts[self.content_scroll];
        }
        assert(self@ =~= old(self)@.clamp_content_scroll(visible_height, rc));
    }

    /// Moves `content_scroll` so the cursor's line is visible, mirroring
    /// `clamp_browser_scroll`: walks back from the cursor's line adding up
    /// wrapped rows until the budget is spent (the view then starts just
    /// after that line) or the view's top is reached (already visible).
    pub fn clamp_content_cursor_scroll(&mut self, visible_height: usize, row_counts: &[usize])
        requires
            row_counts@.len() == old(self).content_lines@.len(),
            rows_sum(row_counts@, 0, row_counts@.len() as int) <= usize::MAX,
        ensures
            final(self)@ == old(self)@.clamp_content_cursor_scroll(visible_height, row_counts@),
            final(self).source == old(self).source,
    {
        let ghost rc = row_counts@;
        let n = self.content_lines.len();
        if n == 0 {
            return;
        }
        let cursor = if self.content_cursor < n - 1 {
            self.content_cursor
        } else {
            n - 1
        };
        if cursor < self.content_scroll {
            self.content_scroll = cursor;
            assert(self@ =~= old(self)@.clamp_content_cursor_scroll(visible_height, rc));
            return;
        }
        let scroll = self.content_scroll;
        let mut rows: usize = 0;
        let mut idx: usize = cursor;
        loop
            invariant
                scroll <= idx <= cursor < n == row_counts@.len(),
                n == old(self).content_lines@.len(),
                cursor as int == (if old(self).content_cursor < n - 1 {
                    old(self).content_cursor as int
                } else {
                    n - 1
                }),
                rc == row_counts@,
                scroll == self.content_scroll,
                self@ == old(self)@,
                self.source == old(self).source,
                rows == rows_sum(rc, idx + 1, cursor + 1),
                rows <= visible_height,
                overflow_line(rc, visible_height as int, cursor as int, scroll as int, cursor as int)
                    == overflow_line(rc, visible_height as int, cursor as int, scroll as int, idx as int),
                rows_sum(rc, 0, n as int) <= usize::MAX,
            decreases idx,
        {
            proof {
                lemma_rows_sum_split(rc, idx as int, idx + 1, cursor + 1);
                lemma_rows_sum_split(rc, 0, idx as int, cursor + 1);
                lemma_rows_sum_split(rc, 0, cursor + 1, n as int);
                lemma_rows_sum_one(rc, idx as int);
            }
            rows = rows + row_counts[idx];
            if rows > visible_height {
                let t = if idx + 1 < cursor {
                    idx + 1
                } else {
                    cursor
                };
                if self.content_scroll < t {
                    self.content_scroll = t;
                }
                assert(self@ =~= old(self)@.clamp_content_cursor_scroll(visible_height, rc));
                return;
            }
            if idx == self.content_scroll {
                return;
            }
            idx = idx - 1;
        }
    }
}

/// After the browser scroll is clamped, the selection is one of the
/// `visible_height` rows shown.
pub proof fn lemma_browser_selection_visible(m: AppModel, visible_height: usize)
    requires
        visible_height > 0,
    ensures
        ({
            let r = m.clamp_browser_scroll(visible_height);
            r.browser_offset <= r.browser_selected < r.browser_offset + visible_height
        }),
{
}

/// `h` in the browser, plainly: on an expanded directory it marks the
/// directory collapsed and removes exactly the items after it that lie
/// deeper (its open subtree), keeping everything else in order and the
/// selection where it is; on any other item below the top level it selects
/// the nearest item above that is shallower (its parent directory), if
/// there is one; otherwise nothing changes.
pub proof fn lemma_collapse_or_jump_parent(m: AppModel)
    requires
        m.browser_selected < m.file_items.len(),
    ensures
        ({
            let items = m.file_items;
            let sel = m.browser_selected as int;
            let r = m.collapse_or_jump_parent();
            let d = items[sel].depth;
            if items[sel].is_dir && items[sel].is_expanded {
                exists|e: int|
                    #![trigger items.skip(e)]
                    sel < e <= items.len() && (forall|k: int| sel < k < e ==> #[trigger] items[k].depth
                        > d) && (e < items.len() ==> items[e].depth <= d) && r == AppModel {
                        file_items: items.take(sel) + seq![
                            FileItemView { is_expanded: false, ..items[sel] },
                        ] + items.skip(e),
                        ..m
                    }
            } else if d == 0 {
                r == m
            } else {
                r.file_items == items && (forall|k: int|
                    #![trigger items[k]]
                    r.browser_selected < k < sel ==> items[k].depth >= d) && ((
                r.browser_selected as int) < sel && items[r.browser_selected as int].depth < d || (r
                    == m && forall|k: int| #![trigger items[k]] 0 <= k < sel ==> items[k].depth >= d))
                    && r == AppModel { browser_selected: r.browser_selected, ..m }
            }
        }),
{
    let items = m.file_items;
    let sel = m.browser_selected as int;
    let d = items[sel].depth;
    if items[sel].is_dir && items[sel].is_expanded {
        let folded = items.update(sel, FileItemView { is_expanded: false, ..items[sel] });
        lemma_subtree_end(folded, folded[sel].depth, sel + 1);
        let e = subtree_end(folded, folded[sel].depth, sel + 1);
        assert forall|k: int| sel < k < e implies #[trigger] items[k].depth > d by {
            assert(folded[k] == items[k]);
        }
        if e < items.len() {
            assert(folded[e] == items[e]);
        }
        assert(folded.skip(e) =~= items.skip(e));
        assert(collapsed(folded, sel) =~= items.take(sel) + seq![
            FileItemView { is_expanded: false, ..items[sel] },
        ] + items.skip(e));
    } else if d != 0 {
        lemma_last_shallower(items, d, sel);
    }
}

/// After the cursor clamp, the view starts at or above the cursor's line
/// and the lines from the view's top through the cursor's line fit in the
/// viewport, unless the cursor's line alone is taller than it (then the
/// view starts at that line). The view moves as little as that needs: up
/// to the cursor's line when it was below it, else down to the least start
/// (not above the old one) that keeps the cursor's line in view.
pub proof fn lemma_cursor_visible(m: AppModel, vh: usize, rc: Seq<usize>)
    requires
        m.content_lines.len() > 0,
    ensures
        ({
            let n = m.content_lines.len() as int;
            let c = if m.content_cursor < n - 1 { m.content_cursor as int } else { n - 1 };
            let s0 = m.content_scroll as int;
            let s = m.clamp_content_cursor_scroll(vh, rc).content_scroll as int;
            &&& s <= c && (s == c || rows_sum(rc, s, c + 1) <= vh)
            &&& c < s0 ==> s == c
            &&& s0 <= c ==> s0 <= s && forall|k: int|
                s0 <= k < s ==> #[trigger] rows_sum(rc, k, c + 1) > vh
        }),
{
    let n = m.content_lines.len() as int;
    let c = if m.content_cursor < n - 1 { m.content_cursor as int } else { n - 1 };
    let s0 = m.content_scroll as int;
    if s0 <= c {
        lemma_overflow_line(rc, vh as int, c, s0, c);
        let s = m.clamp_content_cursor_scroll(vh, rc).content_scroll as int;
        if let Some(i) = overflow_line(rc, vh as int, c, s0, c) {
            assert forall|k: int| s0 <= k < s implies #[trigger] rows_sum(rc, k, c + 1) > vh by {
                lemma_rows_sum_split(rc, k, i, c + 1);
            }
        }
    }
}

pub proof fn lemma_overflow_line(rc: Seq<usize>, vh: int, c: int, scroll: int, idx: int)
    requires
        scroll <= idx <= c,
        idx == c || rows_sum(rc, idx + 1, c + 1) <= vh,
    ensures
        match overflow_line(rc, vh, c, scroll, idx) {
            Some(i) => scroll <= i <= idx && rows_sum(rc, i, c + 1) > vh && (i == c || rows_sum(
                rc,
                i + 1,
                c + 1,
            ) <= vh),
            None => rows_sum(rc, scroll, c + 1) <= vh,
        },
    decreases idx - scroll,
{
    if rows_sum(rc, idx, c + 1) <= vh && idx > scroll {
        lemma_overflow_line(rc, vh, c, scroll, idx - 1);
    }
}

/// After the scroll clamp, the view's first line is on the page; when the
/// page needs more rows than the viewport, the view starts at the greatest
/// line (not below the old start) from which the lines to the end fill it:
/// every start up to it fills the viewport, none after it does. A page
/// that fits leaves the start where it was (kept on the page).
pub proof fn lemma_scroll_fills_viewport(m: AppModel, vh: usize, rc: Seq<usize>)
    requires
        m.content_lines.len() > 0,
    ensures
        ({
            let n = m.content_lines.len() as int;
            let s1 = if m.content_scroll < n - 1 { m.content_scroll as int } else { n - 1 };
            let s = m.clamp_content_scroll(vh, rc).content_scroll as int;
            &&& 0 <= s <= s1
            &&& rows_sum(rc, 0, n) <= vh ==> s == s1
            &&& rows_sum(rc, 0, n) > vh ==> rows_sum(rc, s, n) >= vh
            &&& forall|k: int| s < k <= s1 ==> rows_sum(rc, k, n) < vh
            &&& rows_sum(rc, 0, n) > vh ==> forall|k: int| 0 <= k <= s ==> #[trigger] rows_sum(rc, k, n) >= vh
        }),
{
    let n = m.content_lines.len() as int;
    let s1 = if m.content_scroll < n - 1 { m.content_scroll as int } else { n - 1 };
    if rows_sum(rc, 0, n) > vh {
        lemma_pull_back(rc, n, vh as int, s1);
        let s = m.clamp_content_scroll(vh, rc).content_scroll as int;
        assert forall|k: int| 0 <= k <= s implies #[trigger] rows_sum(rc, k, n) >= vh by {
            lemma_rows_sum_split(rc, k, s, n);
        }
    }
}

pub proof fn lemma_pull_back(rc: Seq<usize>, n: int, vh: int, s: int)
    requires
        0 <= s <= n,
        rows_sum(rc, 0, n) > vh,
    ensures
        0 <= pull_back(rc, n, vh, s) <= s,
        rows_sum(rc, pull_back(rc, n, vh, s), n) >= vh,
        forall|k: int| pull_back(rc, n, vh, s) < k <= s ==> rows_sum(rc, k, n) < vh,
    decreases s,
{
    if s > 0 && rows_sum(rc, s, n) < vh {
        lemma_pull_back(rc, n, vh, s - 1);
    }
}


// ---------------------------------------------------------------------------
// Effects and the update function
// ---------------------------------------------------------------------------

/// A side effect that `update` asks the program around it to carry out:
/// the state transition stays pure and only describes the effect.
#[derive(Debug, Clone, PartialEq, Eq)]
pub enum Effect {
    /// Launch the editor on `path`, suspending the interface meanwhile.
    LaunchEditor { path: String },
    /// Launch the editor on the raw lines `[raw_start, raw_end)` of `path`
    /// only (the current block), then splice the result back into it.
    EditBlock { path: String, raw_start: usize, raw_end: usize },
}

/// An `Effect` with its path as a character sequence.
pub enum EffectView {
    LaunchEditor { path: Seq<char> },
    EditBlock { path: Seq<char>, raw_start: usize, raw_end: usize },
}

impl View for Effect {
    type V = EffectView;

    open spec fn view(&self) -> EffectView {
        match self {
            Effect::LaunchEditor { path } => EffectView::LaunchEditor { path: path@ },
            Effect::EditBlock { path, raw_start, raw_end } => EffectView::EditBlock {
                path: path@,
                raw_start: *raw_start,
                raw_end: *raw_end,
            },
        }
    }
}

/// The views of a sequence of effects.
pub open spec fn effects_view(v: Seq<Effect>) -> Seq<EffectView> {
    v.map_values(|e: Effect| e@)
}

/// The result of one `update`: whether to quit, and the effects to carry
/// out.
#[derive(Debug, Clone, PartialEq, Eq, Default)]
pub struct Update {
    pub quit: bool,
    pub effects: Vec<Effect>,
}

impl AppModel {
    /// The raw-file line range `[start, end)` of the current block: from
    /// the source start of its first line to the source end of its last
    /// line. None without a page or lines.
    pub open spec fn block_src_range(self) -> Option<(usize, usize)> {
        let lines = self.content_lines;
        if self.current_file is None || lines.len() == 0 {
            None
        } else {
            let r = block_range(lines, self.content_cursor as int);
            if r.1 <= r.0 || r.0 >= lines.len() {
                None
            } else {
                Some((lines[r.0].src_start, lines[r.1 - 1].src_end))
            }
        }
    }

    /// The effects that `action` asks for: the editor on the current page,
    /// or on the current block.
    pub open spec fn effects_for(self, action: Action) -> Seq<EffectView> {
        match action {
            Action::EditCurrentPage => match self.current_file {
                Some(p) => seq![EffectView::LaunchEditor { path: p }],
                None => seq![],
            },
            Action::EditCurrentBlock => match (self.current_file, self.block_src_range()) {
                (Some(p), Some(r)) => seq![
                    EffectView::EditBlock { path: p, raw_start: r.0, raw_end: r.1 },
                ],
                _ => seq![],
            },
            _ => seq![],
        }
    }

    /// The transition for an action that does not go through the graph
    /// source (all but opening an item and starting the browser filter).
    /// Search keys go to the in-page search with the content pane focused
    /// and to the filter with the browser focused; `n`/`N` only act in the
    /// content pane.
    pub open spec fn step(self, action: Action) -> AppModel {
        let content = self.focus == Focus::Content;
        match action {
            Action::ToggleFocus => self.toggle_focus(),
            Action::BrowserUp => self.browser_up(),
            Action::BrowserDown => self.browser_down(),
            Action::CollapseOrParent => self.collapse_or_jump_parent(),
            Action::ContentUp(a) => self.content_up(a),
            Action::ContentDown(a) => self.content_down(a),
            Action::ContentTop => self.content_top(),
            Action::ContentBottom => self.content_bottom(),
            Action::BrowserTop => self.browser_top(),
            Action::BrowserBottom => self.browser_bottom(),
            Action::SearchStart => if content {
                self.content_search_start()
            } else {
                self
            },
            Action::SearchInput(c) => if content {
                self.content_search_input(c)
            } else {
                self.browser_filter_input(c)
            },
            Action::SearchBackspace => if content {
                self.content_search_backspace()
            } else {
                self.browser_filter_backspace()
            },
            Action::SearchCommit => if content {
                self.content_search_commit()
            } else {
                self.browser_filter_commit()
            },
            Action::SearchCancel => if content {
                self.content_search_cancel()
            } else {
                self.browser_filter_cancel()
            },
            Action::SearchNext => if content {
                self.content_search_next()
            } else {
                self
            },
            Action::SearchPrev => if content {
                self.content_search_prev()
            } else {
                self
            },
            _ => self,
        }
    }

    /// The inputs on which handling `action` stays within the page and the
    /// tree: committing or searching backwards needs a view inside the page (see
    /// `commit_in_bounds`, `prev_in_bounds`), and expanding a directory
    /// needs room for one more level.
    pub open spec fn can_update(self, action: Action) -> bool {
        let content = self.focus == Focus::Content;
        let sel = self.browser_selected as int;
        &&& action == Action::OpenSelected && sel < self.file_items.len() && self.file_items[sel].is_dir
            && !self.file_items[sel].is_expanded ==> self.file_items[sel].depth < usize::MAX
        &&& action == Action::SearchCommit && content ==> self.commit_in_bounds()
        &&& action == Action::SearchPrev && content ==> self.prev_in_bounds()
    }
}

impl<S: GraphSource> App<S> {
    /// Whether the browser has a committed filter (a query, input mode
    /// left).
    pub fn browser_has_committed_search(&self) -> (r: bool)
        ensures
            r == (!self.browser_filter_active && self.browser_filter_query@.len() > 0),
    {
        !self.browser_filter_active && !self.browser_filter_query.as_str().is_empty()
    }

    /// The raw-file line range of the current block (see `block_range_at`):
    /// from the source start of its first line to the source end of its
    /// last line, half-open. None without a page or lines.
    pub fn current_block_src_range(&self) -> (r: Option<(usize, usize)>)
        ensures
            r == self@.block_src_range(),
    {
        if self.current_file.is_none() {
            return None;
        }
        if self.content_lines.len() == 0 {
            return None;
        }
        let (start, end) = block_range_at(self.content_lines.as_slice(), self.content_cursor);
        proof {
            if self.content_cursor < self.content_lines@.len() {
                lemma_block_end_from(
                    self@.content_lines,
                    self@.content_lines[self.content_cursor as int].indent,
                    self.content_cursor + 1,
                );
            }
        }
        if end <= start || start >= self.content_lines.len() {
            return None;
        }
        assert(self@.content_lines[start as int] == self.content_lines@[start as int]@);
        assert(self@.content_lines[end - 1] == self.content_lines@[end - 1]@);
        let raw_start = self.content_lines[start].src_start;
        let raw_end = self.content_lines[end - 1].src_end;
        Some((raw_start, raw_end))
    }

    /// The effects that `action` asks for, computed without changing the
    /// state.
    fn effects_for(&self, action: &Action) -> (r: Vec<Effect>)
        ensures
            effects_view(r@) == self@.effects_for(*action),
    {
        let mut out: Vec<Effect> = Vec::new();
        match action {
            Action::EditCurrentPage => {
                if let Some(path) = &self.current_file {
                    out.push(Effect::LaunchEditor { path: path.clone() });
                }
            },
            Action::EditCurrentBlock => {
                let range = self.current_block_src_range();
                if let Some(path) = &self.current_file {
                    if let Some((raw_start, raw_end)) = range {
                        out.push(Effect::EditBlock { path: path.clone(), raw_start, raw_end });
                    }
                }
            },
            _ => {},
        }
        assert(effects_view(out@) =~= self@.effects_for(*action));
        out
    }

    /// Applies `action` to the state; returns whether to quit.
    fn update_quit(&mut self, action: Action) -> (r: Result<bool, SourceError>)
        requires
            old(self)@.can_update(action),
        ensures
            r matches Ok(q) ==> q == (action == Action::Quit),
            action != Action::OpenSelected ==> r is Ok,
            action != Action::OpenSelected && !(action == Action::SearchStart && old(self).focus
                == Focus::Browser) ==> final(self)@ == old(self)@.step(action) && final(self).source
                == old(self).source,
            action == Action::SearchStart && old(self).focus == Focus::Browser ==> final(self)@
                == old(self)@.browser_filter_start(final(self)@.browser_filter_candidates)
                && candidates_wf(final(self)@.browser_filter_candidates) && candidates_from(
                old(self).source,
                old(self).graph_path@,
                final(self)@.browser_filter_candidates,
            ) && final(self).source
                == old(self).source,
            action == Action::OpenSelected ==> open_selected_outcome(old(self).source, old(self)@, final(self)@, r is Ok)
                && final(self).source == old(self).source,
    {
        let content = self.focus == Focus::Content;
        match action {
            Action::Quit => Ok(true),
            Action::ToggleFocus => {
                self.toggle_focus();
                Ok(false)
            },
            Action::BrowserUp => {
                self.browser_up();
                Ok(false)
            },
            Action::BrowserDown => {
                self.browser_down();
                Ok(false)
            },
            Action::OpenSelected => {
                match self.open_selected() {
                    Ok(()) => Ok(false),
                    Err(e) => Err(e),
                }
            },
            Action::CollapseOrParent => {
                self.collapse_or_jump_parent();
                Ok(false)
            },
            Action::ContentUp(amount) => {
                self.content_up(amount);
                Ok(false)
            },
            Action::ContentDown(amount) => {
                self.content_down(amount);
                Ok(false)
            },
            Action::ContentTop => {
                self.content_top();
                Ok(false)
            },
            Action::ContentBottom => {
                self.content_bottom();
                Ok(false)
            },
            Action::BrowserTop => {
                self.browser_top();
                Ok(false)
            },
            Action::BrowserBottom => {
                self.browser_bottom();
                Ok(false)
            },
            Action::SearchStart => {
                if content {
                    self.content_search_start();
                } else {
                    self.browser_filter_start();
                }
                Ok(false)
            },
            Action::SearchInput(c) => {
                if content {
                    self.content_search_input(c);
                } else {
                    self.browser_filter_input(c);
                }
                Ok(false)
            },
            Action::SearchBackspace => {
                if content {
                    self.content_search_backspace();
                } else {
                    self.browser_filter_backspace();
                }
                Ok(false)
            },
            Action::SearchCommit => {
                if content {
                    self.content_search_commit();
                } else {
                    self.browser_filter_commit();
                }
                Ok(false)
            },
            Action::SearchCancel => {
                if content {
                    self.content_search_cancel();
                } else {
                    self.browser_filter_cancel();
                }
                Ok(false)
            },
            Action::SearchNext => {
                if content {
                    self.content_search_next();
                }
                Ok(false)
            },
            Action::SearchPrev => {
                if content {
                    self.content_search_prev();
                }
                Ok(false)
            },
            Action::EditCurrentPage => Ok(false),
            Action::EditCurrentBlock => Ok(false),
        }
    }

    /// Handles one action: the effects it asks for (computed on the state
    /// before it) and whether to quit. Only opening an item can fail, when
    /// the graph source does.
    pub fn update(&mut self, action: Action) -> (r: Result<Update, SourceError>)
        requires
            old(self)@.can_update(action),
        ensures
            update_outcome(old(self).source, old(self)@, final(self)@, action, r),
            final(self).source == old(self).source,
    {
        let effects = self.effects_for(&action);
        let quit = self.update_quit(action)?;
        Ok(Update { quit, effects })
    }

    /// Handles `action` when `can_update` allows it (testing it first);
    /// otherwise leaves the state as it is and returns `None`.
    pub fn checked_update(&mut self, action: Action) -> (r: Option<Result<Update, SourceError>>)
        ensures
            r is None <==> !old(self)@.can_update(action),
            r is None ==> final(self)@ == old(self)@,
            r matches Some(u) ==> update_outcome(old(self).source, old(self)@, final(self)@, action, u),
            final(self).source == old(self).source,
    {
        let sel = self.browser_selected;
        let n = self.content_lines.len();
        let content = self.focus == Focus::Content;
        let ok = match action {
            Action::OpenSelected => {
                if sel < self.file_items.len() {
                    assert(self@.file_items[sel as int] == self.file_items@[sel as int]@);
                    let item = &self.file_items[sel];
                    !(item.is_dir && !item.is_expanded) || item.depth < usize::MAX
                } else {
                    true
                }
            },
            Action::SearchCommit => {
                if content && self.content_search_active
                    && !self.content_search_query.as_str().is_empty() && n > 0
                    && self.content_scroll > n {
                    let count = self.match_count();
                    proof {
                        crate::search::lemma_matches_exist(
                            self@.content_lines,
                            self@.content_search_query,
                            n as int,
                        );
                    }
                    count > 0
                } else {
                    true
                }
            },
            Action::SearchPrev => {
                !(content && !self.content_search_query.as_str().is_empty() && n > 0)
                    || self.content_scroll <= n
            },
            _ => true,
        };
        if ok {
            Some(self.update(action))
        } else {
            None
        }
    }
}

/// What handling `action` on state `m` gives (`after`, and the result
/// `r`): whether to quit and the effects asked for; the transition of
/// `step`, or, for opening an item, `open_selected_outcome`, or, for
/// starting the browser filter, a filter session over the searchable text
/// of the graph's pages as they were read. Only opening an item can fail.
pub open spec fn update_outcome<S: GraphSource>(
    src: S,
    m: AppModel,
    after: AppModel,
    action: Action,
    r: Result<Update, SourceError>,
) -> bool {
    &&& r matches Ok(u) ==> u.quit == (action == Action::Quit) && effects_view(u.effects@)
        == m.effects_for(action)
    &&& action != Action::OpenSelected ==> r is Ok
    &&& if action == Action::OpenSelected {
        open_selected_outcome(src, m, after, r is Ok)
    } else if action == Action::SearchStart && m.focus == Focus::Browser {
        after == m.browser_filter_start(after.browser_filter_candidates) && candidates_wf(
            after.browser_filter_candidates,
        ) && candidates_from(src, m.graph_path, after.browser_filter_candidates)
    } else {
        after == m.step(action)
    }
}

/// What opening the selected item may lead to: nothing without a
/// selection; an expanded directory collapsed; a collapsed directory
/// expanded with the entries listed for it (left marked expanded but
/// without children when listing fails); a page shown from the top with
/// the content read for it and the content pane focused (no change when
/// reading fails).
pub open spec fn open_selected_outcome<S: GraphSource>(src: S, m: AppModel, after: AppModel, ok: bool) -> bool {
    let sel = m.browser_selected as int;
    if sel >= m.file_items.len() {
        ok && after == m
    } else if m.file_items[sel].is_dir {
        if m.file_items[sel].is_expanded {
            ok && after == m.toggle_expanded(sel).collapse_dir(sel)
        } else {
            (ok ==> exists|es: Seq<EntryView>| src.lists(m.file_items[sel].path, es) && after == #[trigger] m.toggle_expanded(sel).with_children(sel, es))
                && (!ok ==> after == m.toggle_expanded(sel))
        }
    } else {
        (ok ==> exists|c: Seq<char>| src.reads(m.file_items[sel].path, c) && after == #[trigger] m.with_opened_page(m.file_items[sel].path, c))
            && (!ok ==> after == m)
    }
}


/// Toggling focus twice gives back the same state.
pub proof fn lemma_toggle_focus_twice(m: AppModel)
    ensures
        m.toggle_focus().toggle_focus() == m,
{
    assert(m.toggle_focus().toggle_focus() =~= m);
}

proof fn lemma_children_end(items: Seq<FileItemView>, d: usize, first: int, k: int, e: int)
    requires
        first <= e <= first + k <= items.len(),
        forall|j: int| first <= j < first + k ==> #[trigger] items[j].depth > d,
        first + k < items.len() ==> items[first + k].depth <= d,
    ensures
        subtree_end(items, d, e) == first + k,
    decreases first + k - e,
{
    if e < first + k {
        lemma_children_end(items, d, first, k, e + 1);
    }
}

/// Opening a collapsed directory and then opening it again gives back the
/// tree it was in, whatever was listed under it (a collapsed directory has
/// nothing deeper right after it).
pub proof fn lemma_expand_then_collapse(m: AppModel, es: Seq<EntryView>)
    requires
        m.browser_selected < m.file_items.len(),
        m.file_items[m.browser_selected as int].is_dir,
        !m.file_items[m.browser_selected as int].is_expanded,
        m.file_items[m.browser_selected as int].depth < usize::MAX,
        m.browser_selected + 1 < m.file_items.len() ==> m.file_items[m.browser_selected + 1].depth
            <= m.file_items[m.browser_selected as int].depth,
    ensures
        ({
            let sel = m.browser_selected as int;
            m.toggle_expanded(sel).with_children(sel, es).toggle_expanded(sel).collapse_dir(sel) == m
        }),
{
    let sel = m.browser_selected as int;
    let items = m.file_items;
    let d = items[sel].depth;
    let e1 = m.toggle_expanded(sel);
    let e2 = e1.with_children(sel, es);
    let kids = items_of_entries(es, (e1.file_items[sel].depth + 1) as usize);
    let k = kids.len() as int;
    let t = e2.toggle_expanded(sel);
    let ti = t.file_items;
    assert(e1.file_items[sel].depth == d);
    assert(ti.len() == items.len() + k);
    assert forall|j: int| sel + 1 <= j < sel + 1 + k implies #[trigger] ti[j].depth > d by {
        assert(ti[j] == kids[j - sel - 1]);
    }
    if sel + 1 + k < ti.len() {
        assert(ti[sel + 1 + k] == items[sel + 1]);
    }
    lemma_children_end(ti, d, sel + 1, k, sel + 1);
    assert(ti[sel].depth == d);
    let r = t.collapse_dir(sel);
    assert(r.file_items =~= items) by {
        assert forall|j: int| 0 <= j < items.len() implies r.file_items[j] == items[j] by {
            if j < sel {
                assert(r.file_items[j] == ti[j]);
            } else if j == sel {
                assert(r.file_items[j] == ti[j]);
            } else {
                assert(r.file_items[j] == ti[j + k]);
            }
        }
    }
    assert(r =~= m);
}

} // verus!
