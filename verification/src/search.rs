//! In-page search in the content pane (`/`, `n`, `N`): case-insensitive
//! substring matches over each line's plain text.

use vstd::prelude::*;
use crate::app::{App, AppModel};
use crate::parser::{ParsedLineView, line_to_plain_text, plain_text};
use crate::source::GraphSource;
use crate::text::{contains_chars, contains_seq, lowercase, str_chars, string_pop, string_push, to_lowercase};

verus! {

/// Line `i` contains the query, ignoring case.
pub open spec fn line_matches(lines: Seq<ParsedLineView>, i: int, q: Seq<char>) -> bool {
    contains_seq(lowercase(plain_text(lines[i])), lowercase(q))
}

/// The first matching line in `[a, b)`.
pub open spec fn first_match(lines: Seq<ParsedLineView>, q: Seq<char>, a: int, b: int) -> Option<
    int,
>
    decreases b - a,
{
    if a >= b {
        None
    } else if line_matches(lines, a, q) {
        Some(a)
    } else {
        first_match(lines, q, a + 1, b)
    }
}

/// The last matching line in `[a, b)`.
pub open spec fn last_match(lines: Seq<ParsedLineView>, q: Seq<char>, a: int, b: int) -> Option<
    int,
>
    decreases b - a,
{
    if a >= b {
        None
    } else if line_matches(lines, b - 1, q) {
        Some(b - 1)
    } else {
        last_match(lines, q, a, b - 1)
    }
}

/// The matching lines among the first `k`, in order.
pub open spec fn matches_upto(lines: Seq<ParsedLineView>, q: Seq<char>, k: int) -> Seq<usize>
    decreases k,
{
    if k <= 0 {
        seq![]
    } else if line_matches(lines, k - 1, q) {
        matches_upto(lines, q, k - 1).push((k - 1) as usize)
    } else {
        matches_upto(lines, q, k - 1)
    }
}

/// The first position of `x` in `s`, if it occurs.
pub open spec fn position_of(s: Seq<usize>, x: usize) -> Option<int>
    decreases s.len(),
{
    if s.len() == 0 {
        None
    } else {
        match position_of(s.drop_last(), x) {
            Some(p) => Some(p),
            None => if s.last() == x {
                Some(s.len() - 1)
            } else {
                None
            },
        }
    }
}

impl AppModel {
    /// There is a query and a page to search.
    pub open spec fn searchable(self) -> bool {
        self.content_search_query.len() > 0 && self.content_lines.len() > 0
    }

    /// The first match at or after `start`; with `wrap`, else the first
    /// match before it.
    pub open spec fn next_match(self, start: int, wrap: bool) -> Option<int> {
        let lines = self.content_lines;
        let q = self.content_search_query;
        let n = lines.len() as int;
        if !self.searchable() {
            None
        } else {
            match first_match(lines, q, start, n) {
                Some(i) => Some(i),
                None => if wrap {
                    first_match(lines, q, 0, if start < n { start } else { n })
                } else {
                    None
                },
            }
        }
    }

    /// The last match before `start`; with `wrap`, else the last match at
    /// or after it.
    pub open spec fn prev_match(self, start: int, wrap: bool) -> Option<int> {
        let lines = self.content_lines;
        let q = self.content_search_query;
        let n = lines.len() as int;
        if !self.searchable() {
            None
        } else {
            match last_match(lines, q, 0, start) {
                Some(i) => Some(i),
                None => if wrap {
                    last_match(lines, q, start, n)
                } else {
                    None
                },
            }
        }
    }

    /// The lines matching the query, in order (none without a query).
    pub open spec fn match_lines(self) -> Seq<usize> {
        if !self.searchable() {
            seq![]
        } else {
            matches_upto(self.content_lines, self.content_search_query, self.content_lines.len() as int)
        }
    }

    /// The 1-based rank of the line at `content_scroll` among the matches.
    pub open spec fn current_match(self) -> Option<usize> {
        match position_of(self.match_lines(), self.content_scroll) {
            Some(p) => Some((p + 1) as usize),
            None => None,
        }
    }

    /// `/` in the content pane: enters search input with an empty query,
    /// remembering where the view and cursor were (only with a page open).
    pub open spec fn content_search_start(self) -> AppModel {
        if self.current_file is Some {
            AppModel {
                content_search_active: true,
                content_search_query: seq![],
                content_search_saved_scroll: self.content_scroll,
                content_search_saved_cursor: self.content_cursor,
                ..self
            }
        } else {
            self
        }
    }

    /// Types `c` into an active search.
    pub open spec fn content_search_input(self, c: char) -> AppModel {
        if self.content_search_active {
            AppModel { content_search_query: self.content_search_query.push(c), ..self }
        } else {
            self
        }
    }

    /// Deletes the last character of an active search.
    pub open spec fn content_search_backspace(self) -> AppModel {
        if self.content_search_active && self.content_search_query.len() > 0 {
            AppModel { content_search_query: self.content_search_query.drop_last(), ..self }
        } else {
            self
        }
    }

    /// Leaves search, clearing the query and restoring the view and cursor
    /// saved when it started.
    pub open spec fn content_search_cancel(self) -> AppModel {
        AppModel {
            content_search_active: false,
            content_search_query: seq![],
            content_scroll: self.content_search_saved_scroll,
            content_cursor: self.content_search_saved_cursor,
            ..self
        }
    }

    /// Moves view and cursor to line `l` and leaves search input.
    pub open spec fn jump_to_match(self, l: int) -> AppModel {
        AppModel {
            content_scroll: l as usize,
            content_cursor: l as usize,
            content_search_active: false,
            ..self
        }
    }

    /// Enter in search: jumps to the first match from the view's top,
    /// wrapping around; without one the search stays open. Without a query
    /// it cancels.
    pub open spec fn content_search_commit(self) -> AppModel {
        if !self.content_search_active || self.content_search_query.len() == 0 {
            self.content_search_cancel()
        } else {
            match self.next_match(self.content_scroll as int, true) {
                Some(l) => self.jump_to_match(l),
                None => self,
            }
        }
    }

    /// `n`: jumps to the next match below the view's top (from the top
    /// itself while still typing).
    pub open spec fn content_search_next(self) -> AppModel {
        if !self.content_search_active && self.content_search_query.len() == 0 {
            self
        } else {
            let start = if self.content_search_active {
                self.content_scroll as int
            } else {
                self.content_scroll + 1
            };
            match self.next_match(start, false) {
                Some(l) => self.jump_to_match(l),
                None => self,
            }
        }
    }

    /// `N`: jumps to the previous match above the view's top.
    pub open spec fn content_search_prev(self) -> AppModel {
        if !self.content_search_active && self.content_search_query.len() == 0 {
            self
        } else {
            match self.prev_match(self.content_scroll as int, false) {
                Some(l) => self.jump_to_match(l),
                None => self,
            }
        }
    }

    /// Committing does not read past the last line: a view below the end
    /// only wraps around to a match that exists.
    pub open spec fn commit_in_bounds(self) -> bool {
        self.content_search_active && self.searchable() && self.content_scroll
            > self.content_lines.len() ==> first_match(
            self.content_lines,
            self.content_search_query,
            0,
            self.content_lines.len() as int,
        ) is Some
    }

    /// Searching backwards starts within the page.
    pub open spec fn prev_in_bounds(self) -> bool {
        self.searchable() ==> self.content_scroll <= self.content_lines.len()
    }
}

pub proof fn lemma_first_match(lines: Seq<ParsedLineView>, q: Seq<char>, a: int, b: int)
    ensures
        first_match(lines, q, a, b) matches Some(i) ==> a <= i < b && line_matches(lines, i, q)
            && forall|k: int| a <= k < i ==> !line_matches(lines, k, q),
        first_match(lines, q, a, b) is None ==> forall|k: int|
            a <= k < b ==> !line_matches(lines, k, q),
    decreases b - a,
{
    if a < b && !line_matches(lines, a, q) {
        lemma_first_match(lines, q, a + 1, b);
    }
}

impl<S: GraphSource> App<S> {
    /// Whether line `i` contains the lowercased query `q`.
    fn line_matches_at(&self, i: usize, q: &[char]) -> (r: bool)
        requires
            i < self.content_lines@.len(),
            q@ == lowercase(self.content_search_query@),
        ensures
            r == line_matches(self@.content_lines, i as int, self@.content_search_query),
    {
        let text = line_to_plain_text(&self.content_lines[i]);
        let lower = to_lowercase(text.as_str());
        let cs = str_chars(lower.as_str());
        assert(self@.content_lines[i as int] == self.content_lines@[i as int]@);
        contains_chars(cs.as_slice(), q)
    }

    /// The first line in `[a, b)` containing the query `q` (lowercased).
    fn scan_forward(&self, a: usize, b: usize, q: &[char]) -> (r: Option<usize>)
        requires
            b <= self.content_lines@.len(),
            q@ == lowercase(self.content_search_query@),
        ensures
            r matches Some(i) ==> first_match(
                self@.content_lines,
                self@.content_search_query,
                a as int,
                b as int,
            ) == Some(i as int),
            r is None ==> first_match(
                self@.content_lines,
                self@.content_search_query,
                a as int,
                b as int,
            ) is None,
    {
        let ghost lines = self@.content_lines;
        let ghost qs = self@.content_search_query;
        let mut i: usize = a;
        while i < b
            invariant
                a <= i,
                b <= self.content_lines@.len(),
                lines == self@.content_lines,
                qs == self@.content_search_query,
                q@ == lowercase(qs),
                first_match(lines, qs, a as int, b as int) == first_match(lines, qs, i as int, b as int),
            decreases b - i,
        {
            if self.line_matches_at(i, q) {
                return Some(i);
            }
            i = i + 1;
        }
        None
    }

    /// The last line in `[a, b)` containing the query `q` (lowercased).
    fn scan_backward(&self, a: usize, b: usize, q: &[char]) -> (r: Option<usize>)
        requires
            b <= self.content_lines@.len(),
            q@ == lowercase(self.content_search_query@),
        ensures
            r matches Some(i) ==> last_match(
                self@.content_lines,
                self@.content_search_query,
                a as int,
                b as int,
            ) == Some(i as int),
            r is None ==> last_match(
                self@.content_lines,
                self@.content_search_query,
                a as int,
                b as int,
            ) is None,
    {
        let ghost lines = self@.content_lines;
        let ghost qs = self@.content_search_query;
        let mut j: usize = b;
        while j > a
            invariant
                j <= b <= self.content_lines@.len(),
                lines == self@.content_lines,
                qs == self@.content_search_query,
                q@ == lowercase(qs),
                last_match(lines, qs, a as int, b as int) == last_match(lines, qs, a as int, j as int),
            decreases j,
        {
            if self.line_matches_at(j - 1, q) {
                return Some(j - 1);
            }
            j = j - 1;
        }
        None
    }

    /// Finds the next line matching the search query from `start_pos` on,
    /// wrapping to the top when `wrap` is set.
    pub fn content_find_next_match(&self, start_pos: usize, wrap: bool) -> (r: Option<usize>)
        requires
            wrap && self@.searchable() && start_pos > self.content_lines@.len() ==> first_match(
                self@.content_lines,
                self@.content_search_query,
                0,
                self.content_lines@.len() as int,
            ) is Some,
        ensures
            r matches Some(i) ==> self@.next_match(start_pos as int, wrap) == Some(i as int),
            r is None ==> self@.next_match(start_pos as int, wrap) is None,
    {
        if self.content_search_query.as_str().is_empty() || self.content_lines.len() == 0 {
            proof {
                assert(self.content_search_query@.len() == 0 || self@.content_lines.len() == 0);
            }
            return None;
        }
        let lower = to_lowercase(self.content_search_query.as_str());
        let q = str_chars(lower.as_str());
        let total = self.content_lines.len();
        if start_pos < total {
            if let Some(i) = self.scan_forward(start_pos, total, q.as_slice()) {
                return Some(i);
            }
        } else {
            assert(first_match(
                self@.content_lines,
                self@.content_search_query,
                start_pos as int,
                total as int,
            ) is None);
        }
        if wrap {
            let end = if start_pos < total {
                start_pos
            } else {
                total
            };
            return self.scan_forward(0, end, q.as_slice());
        }
        None
    }

    /// Finds the last line matching the search query before `start_pos`,
    /// wrapping to the bottom when `wrap` is set.
    pub fn content_find_prev_match(&self, start_pos: usize, wrap: bool) -> (r: Option<usize>)
        requires
            self@.searchable() ==> start_pos <= self.content_lines@.len(),
        ensures
            r matches Some(i) ==> self@.prev_match(start_pos as int, wrap) == Some(i as int),
            r is None ==> self@.prev_match(start_pos as int, wrap) is None,
    {
        if self.content_search_query.as_str().is_empty() || self.content_lines.len() == 0 {
            proof {
                assert(self.content_search_query@.len() == 0 || self@.content_lines.len() == 0);
            }
            return None;
        }
        let lower = to_lowercase(self.content_search_query.as_str());
        let q = str_chars(lower.as_str());
        let total = self.content_lines.len();
        if let Some(i) = self.scan_backward(0, start_pos, q.as_slice()) {
            return Some(i);
        }
        if wrap {
            return self.scan_backward(start_pos, total, q.as_slice());
        }
        None
    }
}


impl<S: GraphSource> App<S> {
    /// Starts a search: enters input mode with an empty query and saves
    /// the view and cursor to come back to (only with a page open).
    pub fn content_search_start(&mut self)
        ensures
            final(self)@ == old(self)@.content_search_start(),
            final(self).source == old(self).source,
    {
        if self.current_file.is_some() {
            self.content_search_active = true;
            self.content_search_query = String::new();
            self.content_search_saved_scroll = self.content_scroll;
            self.content_search_saved_cursor = self.content_cursor;
            assert(self@ =~= old(self)@.content_search_start());
        }
    }

    /// Adds a character to the query while searching.
    pub fn content_search_input(&mut self, c: char)
        ensures
            final(self)@ == old(self)@.content_search_input(c),
            final(self).source == old(self).source,
    {
        if self.content_search_active {
            string_push(&mut self.content_search_query, c);
            assert(self@ =~= old(self)@.content_search_input(c));
        }
    }

    /// Removes the last character of the query while searching.
    pub fn content_search_backspace(&mut self)
        ensures
            final(self)@ == old(self)@.content_search_backspace(),
            final(self).source == old(self).source,
    {
        if self.content_search_active {
            let _ = string_pop(&mut self.content_search_query);
            assert(self@ =~= old(self)@.content_search_backspace());
        }
    }

    /// Cancels the search, restoring the saved view and cursor.
    pub fn content_search_cancel(&mut self)
        ensures
            final(self)@ == old(self)@.content_search_cancel(),
            final(self).source == old(self).source,
    {
        self.content_search_active = false;
        self.content_search_query = String::new();
        self.content_scroll = self.content_search_saved_scroll;
        self.content_cursor = self.content_search_saved_cursor;
        assert(self@ =~= old(self)@.content_search_cancel());
    }

    /// Commits the search: jumps to the first match from the top of the
    /// view on, wrapping around; stays in search mode when nothing matches.
    pub fn content_search_commit(&mut self)
        requires
            old(self)@.commit_in_bounds(),
        ensures
            final(self)@ == old(self)@.content_search_commit(),
            final(self).source == old(self).source,
    {
        if !self.content_search_active || self.content_search_query.as_str().is_empty() {
            self.content_search_cancel();
            return;
        }
        if let Some(matching_line) = self.content_find_next_match(self.content_scroll, true) {
            self.content_scroll = matching_line;
            self.content_cursor = matching_line;
            self.content_search_active = false;
            assert(self@ =~= old(self)@.jump_to_match(matching_line as int));
        }
    }

    /// `n`: jumps to the next match.
    pub fn content_search_next(&mut self)
        ensures
            final(self)@ == old(self)@.content_search_next(),
            final(self).source == old(self).source,
    {
        if !self.content_search_active && self.content_search_query.as_str().is_empty() {
            return;
        }
        // Past the last line there is nothing to find: from there the search
        // starts at the end rather than one further.
        let n = self.content_lines.len();
        let start_pos = if self.content_search_active {
            self.content_scroll
        } else if self.content_scroll < n {
            self.content_scroll + 1
        } else {
            n
        };
        if let Some(matching_line) = self.content_find_next_match(start_pos, false) {
            self.content_scroll = matching_line;
            self.content_cursor = matching_line;
            self.content_search_active = false;
            assert(self@ =~= old(self)@.jump_to_match(matching_line as int));
        } else {
            proof {
                if !self.content_search_active && self.content_scroll >= n {
                    assert(first_match(
                        self@.content_lines,
                        self@.content_search_query,
                        self.content_scroll + 1,
                        n as int,
                    ) is None);
                }
            }
        }
    }

    /// `N`: jumps to the previous match.
    pub fn content_search_prev(&mut self)
        requires
            old(self)@.prev_in_bounds(),
        ensures
            final(self)@ == old(self)@.content_search_prev(),
            final(self).source == old(self).source,
    {
        if !self.content_search_active && self.content_search_query.as_str().is_empty() {
            return;
        }
        let start_pos = self.content_scroll;
        if let Some(matching_line) = self.content_find_prev_match(start_pos, false) {
            self.content_scroll = matching_line;
            self.content_cursor = matching_line;
            self.content_search_active = false;
            assert(self@ =~= old(self)@.jump_to_match(matching_line as int));
        }
    }

    /// All line indices that match the search query, in order.
    pub fn match_line_indices(&self) -> (r: Vec<usize>)
        ensures
            r@ == self@.match_lines(),
    {
        let mut out: Vec<usize> = Vec::new();
        if self.content_search_query.as_str().is_empty() || self.content_lines.len() == 0 {
            assert(out@ =~= self@.match_lines());
            return out;
        }
        let lower = to_lowercase(self.content_search_query.as_str());
        let q = str_chars(lower.as_str());
        let ghost lines = self@.content_lines;
        let ghost qs = self@.content_search_query;
        let mut i: usize = 0;
        while i < self.content_lines.len()
            invariant
                i <= self.content_lines@.len(),
                lines == self@.content_lines,
                qs == self@.content_search_query,
                q@ == lowercase(qs),
                out@ == matches_upto(lines, qs, i as int),
            decreases self.content_lines@.len() - i,
        {
            if self.line_matches_at(i, q.as_slice()) {
                out.push(i);
            }
            i = i + 1;
        }
        out
    }

    /// The number of lines matching the search query.
    pub fn match_count(&self) -> (r: usize)
        ensures
            r == self@.match_lines().len(),
    {
        self.match_line_indices().len()
    }

    /// The 1-based position of the line at `content_scroll` among the
    /// matching lines, or `None` when that line is not a match.
    pub fn current_match_position(&self) -> (r: Option<usize>)
        ensures
            r == self@.current_match(),
    {
        let matches = self.match_line_indices();
        let ghost ms = matches@;
        let mut p: usize = 0;
        while p < matches.len()
            invariant
                p <= ms.len(),
                ms == matches@,
                ms == self@.match_lines(),
                position_of(ms.take(p as int), self.content_scroll) is None,
            decreases ms.len() - p,
        {
            assert(ms.take(p + 1).drop_last() =~= ms.take(p as int));
            if matches[p] == self.content_scroll {
                proof {
                    lemma_position_prefix(ms, p + 1, self.content_scroll);
                }
                return Some(p + 1);
            }
            p = p + 1;
        }
        assert(ms.take(ms.len() as int) =~= ms);
        None
    }
}

/// An occurrence found in a prefix is the first occurrence in the whole
/// sequence.
pub proof fn lemma_position_prefix(s: Seq<usize>, k: int, x: usize)
    requires
        0 < k <= s.len(),
        position_of(s.take(k), x) matches Some(_),
    ensures
        position_of(s, x) == position_of(s.take(k), x),
    decreases s.len() - k,
{
    if k < s.len() {
        assert(s.take(k + 1).drop_last() =~= s.take(k));
        lemma_position_prefix(s, k + 1, x);
    } else {
        assert(s.take(k) =~= s);
    }
}


/// The state after typing `keys` into the search: `Some(c)` types `c`,
/// `None` is Backspace.
pub open spec fn typed_search(m: AppModel, keys: Seq<Option<char>>) -> AppModel
    decreases keys.len(),
{
    if keys.len() == 0 {
        m
    } else {
        let prev = typed_search(m, keys.drop_last());
        match keys.last() {
            Some(c) => prev.content_search_input(c),
            None => prev.content_search_backspace(),
        }
    }
}

/// Typing only changes the query.
pub proof fn lemma_typed_search_frame(m: AppModel, keys: Seq<Option<char>>)
    ensures
        typed_search(m, keys) == (AppModel {
            content_search_query: typed_search(m, keys).content_search_query,
            ..m
        }),
    decreases keys.len(),
{
    if keys.len() > 0 {
        lemma_typed_search_frame(m, keys.drop_last());
    }
    assert(typed_search(m, keys) =~= AppModel {
        content_search_query: typed_search(m, keys).content_search_query,
        ..m
    });
}

/// Starting a search, typing anything and cancelling gives back the view
/// and cursor from before the search, and otherwise the same state (the
/// query cleared, the saved positions those from before).
pub proof fn lemma_search_cancel_restores(m: AppModel, keys: Seq<Option<char>>)
    requires
        m.current_file is Some,
    ensures
        typed_search(m.content_search_start(), keys).content_search_cancel() == (AppModel {
            content_search_active: false,
            content_search_query: seq![],
            content_search_saved_scroll: m.content_scroll,
            content_search_saved_cursor: m.content_cursor,
            ..m
        }),
{
    lemma_typed_search_frame(m.content_search_start(), keys);
    assert(typed_search(m.content_search_start(), keys).content_search_cancel() =~= AppModel {
        content_search_active: false,
        content_search_query: seq![],
        content_search_saved_scroll: m.content_scroll,
        content_search_saved_cursor: m.content_cursor,
        ..m
    });
}


/// Some of the first `n` lines match exactly when the list of matches
/// among them is not empty, and then the first match is found.
pub proof fn lemma_matches_exist(lines: Seq<ParsedLineView>, q: Seq<char>, n: int)
    requires
        n >= 0,
    ensures
        (matches_upto(lines, q, n).len() > 0) == (first_match(lines, q, 0, n) is Some),
    decreases n,
{
    lemma_first_match(lines, q, 0, n);
    if n > 0 {
        lemma_matches_exist(lines, q, n - 1);
        lemma_first_match(lines, q, 0, n - 1);
        if line_matches(lines, n - 1, q) {
            assert(first_match(lines, q, 0, n) is Some);
        } else {
            match first_match(lines, q, 0, n - 1) {
                Some(i) => {
                    assert(line_matches(lines, i, q));
                },
                None => {},
            }
        }
    }
}


pub proof fn lemma_last_match(lines: Seq<ParsedLineView>, q: Seq<char>, a: int, b: int)
    ensures
        last_match(lines, q, a, b) matches Some(i) ==> a <= i < b && line_matches(lines, i, q)
            && forall|k: int| i < k < b ==> !line_matches(lines, k, q),
        last_match(lines, q, a, b) is None ==> forall|k: int|
            a <= k < b ==> !line_matches(lines, k, q),
    decreases b - a,
{
    if a < b && !line_matches(lines, b - 1, q) {
        lemma_last_match(lines, q, a, b - 1);
    }
}

/// The matches are the matching lines, each once, in increasing order.
pub proof fn lemma_matches_upto(lines: Seq<ParsedLineView>, q: Seq<char>, k: int)
    requires
        0 <= k <= usize::MAX,
    ensures
        matches_upto(lines, q, k).len() <= k,
        forall|a: int, b: int|
            0 <= a < b < matches_upto(lines, q, k).len() ==> matches_upto(lines, q, k)[a]
                < matches_upto(lines, q, k)[b],
        forall|a: int|
            0 <= a < matches_upto(lines, q, k).len() ==> (#[trigger] matches_upto(lines, q, k)[a])
                < k && line_matches(lines, matches_upto(lines, q, k)[a] as int, q),
        forall|x: int|
            0 <= x < k && #[trigger] line_matches(lines, x, q) ==> matches_upto(lines, q, k).contains(
                x as usize,
            ),
    decreases k,
{
    if k > 0 {
        lemma_matches_upto(lines, q, k - 1);
        let prev = matches_upto(lines, q, k - 1);
        let cur = matches_upto(lines, q, k);
        if line_matches(lines, k - 1, q) {
            assert(cur == prev.push((k - 1) as usize));
            assert forall|x: int| 0 <= x < k && #[trigger] line_matches(lines, x, q) implies cur.contains(
                x as usize,
            ) by {
                if x < k - 1 {
                    let j = choose|j: int| 0 <= j < prev.len() && prev[j] == x as usize;
                    assert(cur[j] == prev[j]);
                } else {
                    assert(cur[prev.len() as int] == (k - 1) as usize);
                }
            }
        }
    }
}

impl AppModel {
    /// `next_match` gives the least matching line at or after `start`; with
    /// `wrap` and none there, the least matching line before it; and
    /// nothing only when no line it may give matches.
    pub proof fn lemma_next_match_least(self, start: int, wrap: bool)
        requires
            start >= 0,
        ensures
            self.next_match(start, wrap) matches Some(i) ==> 0 <= i < self.content_lines.len()
                && line_matches(self.content_lines, i, self.content_search_query) && ((start <= i
                && forall|k: int|
                start <= k < i ==> !line_matches(self.content_lines, k, self.content_search_query))
                || (wrap && i < start && (forall|k: int|
                start <= k < self.content_lines.len() ==> !line_matches(
                    self.content_lines,
                    k,
                    self.content_search_query,
                )) && forall|k: int|
                0 <= k < i ==> !line_matches(self.content_lines, k, self.content_search_query))),
            self.next_match(start, wrap) is None && self.searchable() ==> forall|k: int|
                (if wrap {
                    0
                } else {
                    start
                }) <= k < self.content_lines.len() ==> !line_matches(
                    self.content_lines,
                    k,
                    self.content_search_query,
                ),
    {
        let lines = self.content_lines;
        let q = self.content_search_query;
        let n = lines.len() as int;
        lemma_first_match(lines, q, start, n);
        lemma_first_match(lines, q, 0, if start < n { start } else { n });
    }

    /// `prev_match` gives the greatest matching line before `start`; with
    /// `wrap` and none there, the greatest matching line at or after it.
    pub proof fn lemma_prev_match_greatest(self, start: int, wrap: bool)
        requires
            0 <= start <= self.content_lines.len(),
        ensures
            self.prev_match(start, wrap) matches Some(i) ==> 0 <= i < self.content_lines.len()
                && line_matches(self.content_lines, i, self.content_search_query) && ((i < start
                && forall|k: int|
                i < k < start ==> !line_matches(self.content_lines, k, self.content_search_query))
                || (wrap && start <= i && (forall|k: int|
                0 <= k < start ==> !line_matches(self.content_lines, k, self.content_search_query))
                && forall|k: int|
                i < k < self.content_lines.len() ==> !line_matches(
                    self.content_lines,
                    k,
                    self.content_search_query,
                ))),
            self.prev_match(start, wrap) is None && self.searchable() ==> forall|k: int|
                0 <= k < (if wrap {
                    self.content_lines.len() as int
                } else {
                    start
                }) ==> !line_matches(self.content_lines, k, self.content_search_query),
    {
        let lines = self.content_lines;
        let q = self.content_search_query;
        let n = lines.len() as int;
        lemma_last_match(lines, q, 0, start);
        lemma_last_match(lines, q, start, n);
    }
}

/// `position_of` finds `x` exactly when it occurs, at an index holding it.
pub proof fn lemma_position_of(s: Seq<usize>, x: usize)
    ensures
        position_of(s, x) matches Some(p) ==> 0 <= p < s.len() && s[p] == x,
        position_of(s, x) is None <==> !s.contains(x),
    decreases s.len(),
{
    if s.len() > 0 {
        lemma_position_of(s.drop_last(), x);
        if s.drop_last().contains(x) {
            let j = choose|j: int| 0 <= j < s.drop_last().len() && s.drop_last()[j] == x;
            assert(s[j] == x);
        }
        if s.contains(x) && position_of(s.drop_last(), x) is None {
            let j = choose|j: int| 0 <= j < s.len() && s[j] == x;
            if j < s.len() - 1 {
                assert(s.drop_last()[j] == x);
            }
        }
    }
}

impl AppModel {
    /// The search counter shows a position exactly when there is a query,
    /// the view's top line is on the page and that line matches; the
    /// position is then that line's rank among the matches.
    pub proof fn lemma_current_match_iff(self)
        requires
            self.content_lines.len() <= usize::MAX,
        ensures
            (self.current_match() is Some) <==> (self.searchable() && self.content_scroll
                < self.content_lines.len() && line_matches(
                self.content_lines,
                self.content_scroll as int,
                self.content_search_query,
            )),
            self.current_match() matches Some(p) ==> 1 <= p <= self.match_lines().len()
                && self.match_lines()[p - 1] == self.content_scroll,
    {
        let ms = self.match_lines();
        lemma_position_of(ms, self.content_scroll);
        if self.searchable() {
            lemma_matches_upto(
                self.content_lines,
                self.content_search_query,
                self.content_lines.len() as int,
            );
            if let Some(p) = position_of(ms, self.content_scroll) {
                assert(p + 1 <= usize::MAX);
                assert(self.current_match() == Some((p + 1) as usize));
            }
            if ms.contains(self.content_scroll) {
                let j = choose|j: int| 0 <= j < ms.len() && ms[j] == self.content_scroll;
                assert(ms[j] < self.content_lines.len());
            }
            if self.content_scroll < self.content_lines.len() && line_matches(
                self.content_lines,
                self.content_scroll as int,
                self.content_search_query,
            ) {
                assert(ms.contains(self.content_scroll as int as usize));
            }
        } else {
            assert(ms =~= Seq::<usize>::empty());
            assert(!ms.contains(self.content_scroll));
        }
    }
}

} // verus!
