//! The browser filter (`/` in the browser): narrows the tree to the pages
//! of the whole graph whose title or content contains the query, ignoring
//! case, as a flat list sorted by title.

use vstd::prelude::*;
use crate::app::{App, AppModel, FileItem, FileItemView, copy_items, item_of_entry, items_view, make_file_item_from_entry, candidates_view, opt_view};
use crate::source::{Entry, EntryView, GraphSource, entries_view, file_stem, file_stem_of, lemma_sorted_by_name, name_lt, paths_view, sort_entries, sorted_by_name, stable_sort_of, url_decode, url_decoded};
use crate::text::{contains_chars, contains_seq, lowercase, push_chars, str_chars, string_pop, string_push, to_lowercase};

verus! {

/// A page's title: its URL-decoded file stem (empty without one).
pub open spec fn page_title(path: Seq<char>) -> Seq<char> {
    match file_stem_of(path) {
        Some(s) => url_decoded(s),
        None => seq![],
    }
}

/// A page's title lowercased (empty without a file stem).
pub open spec fn lower_title(path: Seq<char>) -> Seq<char> {
    match file_stem_of(path) {
        Some(s) => lowercase(url_decoded(s)),
        None => seq![],
    }
}

/// What the filter searches in a page: its lowercased title, a newline,
/// then its lowercased content.
pub open spec fn haystack(path: Seq<char>, content: Seq<char>) -> Seq<char> {
    lower_title(path) + seq!['\n'] + lowercase(content)
}

/// The listing entry for a filter result.
pub open spec fn filtered_entry(path: Seq<char>) -> EntryView {
    EntryView { path, name: page_title(path), is_dir: false }
}

/// The entries of the first `k` candidates whose text contains the
/// lowercased query, in order.
pub open spec fn matched_pages(cands: Seq<(Seq<char>, Seq<char>)>, q: Seq<char>, k: int) -> Seq<
    EntryView,
>
    decreases k,
{
    if k <= 0 {
        seq![]
    } else {
        let prev = matched_pages(cands, q, k - 1);
        if contains_seq(cands[k - 1].1, lowercase(q)) {
            prev.push(filtered_entry(cands[k - 1].0))
        } else {
            prev
        }
    }
}

/// The browser list for query `q`: the matching pages, sorted by title
/// (stably), flat at depth 0.
pub open spec fn filter_items(cands: Seq<(Seq<char>, Seq<char>)>, q: Seq<char>) -> Seq<
    FileItemView,
> {
    sorted_by_name(matched_pages(cands, q, cands.len() as int), false).map_values(
        |e: EntryView| item_of_entry(e, 0),
    )
}

/// The pair holds a page and its searchable text, for some content of
/// that page.
pub open spec fn is_candidate(p: (Seq<char>, Seq<char>)) -> bool {
    exists|c: Seq<char>| p.1 == #[trigger] haystack(p.0, c)
}

/// Every candidate pairs a page with its searchable text.
pub open spec fn candidates_wf(cands: Seq<(Seq<char>, Seq<char>)>) -> bool {
    forall|i: int| 0 <= i < cands.len() ==> #[trigger] is_candidate(cands[i])
}

/// The candidates of the first `k` pages of `files`, in order: page
/// `files[i]` with its searchable text when its content `contents[i]` was
/// read, and nothing for a page that could not be read.
pub open spec fn readable_candidates(
    files: Seq<Seq<char>>,
    contents: Seq<Option<Seq<char>>>,
    k: int,
) -> Seq<(Seq<char>, Seq<char>)>
    decreases k,
{
    if k <= 0 {
        seq![]
    } else {
        let prev = readable_candidates(files, contents, k - 1);
        match contents[k - 1] {
            Some(c) => prev.push((files[k - 1], haystack(files[k - 1], c))),
            None => prev,
        }
    }
}

/// The candidates of the pages `files` whose contents `contents` (one per
/// page) were read.
pub open spec fn candidate_list(files: Seq<Seq<char>>, contents: Seq<Option<Seq<char>>>) -> Seq<
    (Seq<char>, Seq<char>),
> {
    readable_candidates(files, contents, files.len() as int)
}

/// `cands` are the candidates of the pages that `src` may list under
/// `root` (or of no page, when listing fails), each with the content that
/// `src` may read for it; pages that could not be read are left out.
pub open spec fn candidates_from<S: GraphSource>(
    src: S,
    root: Seq<char>,
    cands: Seq<(Seq<char>, Seq<char>)>,
) -> bool {
    exists|files: Seq<Seq<char>>, contents: Seq<Option<Seq<char>>>|
        #[trigger] candidate_list(files, contents) == cands && files.len() == contents.len() && (
        files.len() == 0 || src.lists_all(root, files)) && forall|i: int|
            0 <= i < files.len() ==> (#[trigger] contents[i] matches Some(c) ==> src.reads(
                files[i],
                c,
            ))
}

/// Every candidate built from read contents pairs a page with its
/// searchable text.
pub proof fn lemma_readable_candidates_wf(
    files: Seq<Seq<char>>,
    contents: Seq<Option<Seq<char>>>,
    k: int,
)
    requires
        k <= files.len(),
        k <= contents.len(),
    ensures
        candidates_wf(readable_candidates(files, contents, k)),
    decreases k,
{
    if k > 0 {
        lemma_readable_candidates_wf(files, contents, k - 1);
        let prev = readable_candidates(files, contents, k - 1);
        let cur = readable_candidates(files, contents, k);
        if let Some(c) = contents[k - 1] {
            assert forall|i: int| 0 <= i < cur.len() implies #[trigger] is_candidate(cur[i]) by {
                if i < prev.len() {
                    assert(cur[i] == prev[i]);
                } else {
                    assert(cur[i].1 == haystack(cur[i].0, c));
                }
            }
        }
    }
}

/// Views of optional texts.
pub open spec fn opt_texts_view(v: Seq<Option<String>>) -> Seq<Option<Seq<char>>> {
    v.map_values(|o: Option<String>| opt_view(o))
}

impl AppModel {
    /// Starts a filter session: snapshots the tree (the unfiltered one, if
    /// a committed filter is still applied, with the selection reset) and
    /// the selection, clears the query and enters input mode with the
    /// searchable text `cands` of every page.
    pub open spec fn browser_filter_start(self, cands: Seq<(Seq<char>, Seq<char>)>) -> AppModel {
        let base = if self.browser_filter_query.len() > 0 {
            AppModel {
                file_items: self.browser_filter_saved_items,
                browser_selected: 0,
                ..self
            }
        } else {
            self
        };
        AppModel {
            browser_filter_saved_items: base.file_items,
            browser_filter_saved_selected: base.browser_selected,
            browser_filter_query: seq![],
            browser_filter_active: true,
            browser_filter_candidates: cands,
            ..base
        }
    }

    /// The tree replaced by the filter results for the current query.
    pub open spec fn apply_browser_filter(self) -> AppModel {
        AppModel {
            file_items: filter_items(self.browser_filter_candidates, self.browser_filter_query),
            browser_selected: 0,
            browser_offset: 0,
            ..self
        }
    }

    /// Types `c` into the filter and re-applies it.
    pub open spec fn browser_filter_input(self, c: char) -> AppModel {
        AppModel {
            browser_filter_query: self.browser_filter_query.push(c),
            ..self
        }.apply_browser_filter()
    }

    /// Deletes the last character of the filter: an empty query shows the
    /// unfiltered tree again, another one is re-applied.
    pub open spec fn browser_filter_backspace(self) -> AppModel {
        let q = if self.browser_filter_query.len() > 0 {
            self.browser_filter_query.drop_last()
        } else {
            self.browser_filter_query
        };
        let m = AppModel { browser_filter_query: q, ..self };
        if q.len() == 0 {
            AppModel {
                file_items: self.browser_filter_saved_items,
                browser_selected: 0,
                browser_offset: 0,
                ..m
            }
        } else {
            m.apply_browser_filter()
        }
    }

    /// Leaves input mode, keeping the filtered list and the query.
    pub open spec fn browser_filter_commit(self) -> AppModel {
        AppModel { browser_filter_active: false, ..self }
    }

    /// Leaves the filter: clears the query and restores the tree and the
    /// selection from before it started.
    pub open spec fn browser_filter_cancel(self) -> AppModel {
        AppModel {
            browser_filter_query: seq![],
            browser_filter_active: false,
            file_items: self.browser_filter_saved_items,
            browser_selected: self.browser_filter_saved_selected,
            ..self
        }
    }
}

/// The filter's (path, searchable text) pair for page `path` whose
/// content is `content`.
pub fn filter_candidate(path: &str, content: &str) -> (r: (String, String))
    ensures
        r.0@ == path@,
        r.1@ == haystack(path@, content@),
{
    let mut text = match file_stem(path) {
        Some(stem) => {
            let title = url_decode(stem.as_str());
            to_lowercase(title.as_str())
        },
        None => String::new(),
    };
    string_push(&mut text, '\n');
    let lower = to_lowercase(content);
    let lc = str_chars(lower.as_str());
    push_chars(&mut text, lc.as_slice());
    (path.to_owned(), text)
}

/// The browser item for a filter result: the page at depth 0, named by
/// its title.
pub fn make_filtered_file_item(path: String) -> (r: FileItem)
    ensures
        r@ == item_of_entry(filtered_entry(path@), 0),
{
    let name = match file_stem(path.as_str()) {
        Some(s) => url_decode(s.as_str()),
        None => String::new(),
    };
    FileItem { path, name, depth: 0, is_dir: false, is_expanded: false }
}

/// The filter candidates of the listed pages `files`, given what was read
/// of each (`contents`, one per page, in the same order): a page whose
/// content could not be read (`None`) is left out.
pub fn filter_candidates(files: &Vec<String>, contents: &Vec<Option<String>>) -> (r: Vec<
    (String, String),
>)
    requires
        files@.len() == contents@.len(),
    ensures
        candidates_view(r@) == candidate_list(paths_view(files@), opt_texts_view(contents@)),
{
    let ghost fv = paths_view(files@);
    let ghost cv = opt_texts_view(contents@);
    let mut out: Vec<(String, String)> = Vec::new();
    let mut i: usize = 0;
    while i < files.len()
        invariant
            i <= files@.len(),
            files@.len() == contents@.len(),
            fv == paths_view(files@),
            cv == opt_texts_view(contents@),
            candidates_view(out@) == readable_candidates(fv, cv, i as int),
        decreases files@.len() - i,
    {
        assert(fv[i as int] == files@[i as int]@);
        assert(cv[i as int] == opt_view(contents@[i as int]));
        match &contents[i] {
            Some(c) => {
                let cand = filter_candidate(files[i].as_str(), c.as_str());
                let ghost old_out = out@;
                out.push(cand);
                assert(out@ =~= old_out.push(cand));
                assert(candidates_view(out@) =~= candidates_view(old_out).push((cand.0@, cand.1@)));
            },
            None => {},
        }
        i = i + 1;
    }
    out
}

impl<S: GraphSource> App<S> {
    /// Takes the searchable text of every page under the graph root, once
    /// per filter session. A listing that fails gives no pages, and a page
    /// that cannot be read is left out (it matches no query), so one
    /// unreadable file does not make the filter unusable.
    pub fn build_filter_candidates(&self) -> (r: Vec<(String, String)>)
        ensures
            candidates_from(self.source, self.graph_path@, candidates_view(r@)),
            candidates_wf(candidates_view(r@)),
    {
        let files = match self.source.all_files(self.graph_path.as_str()) {
            Ok(f) => f,
            Err(_) => Vec::new(),
        };
        let ghost fv = paths_view(files@);
        let mut contents: Vec<Option<String>> = Vec::new();
        let mut i: usize = 0;
        while i < files.len()
            invariant
                i <= files@.len(),
                contents@.len() == i,
                fv == paths_view(files@),
                forall|k: int|
                    0 <= k < i ==> (#[trigger] opt_texts_view(contents@)[k] matches Some(c)
                        ==> self.source.reads(fv[k], c)),
            decreases files@.len() - i,
        {
            let content = match self.source.read(files[i].as_str()) {
                Ok(c) => Some(c),
                Err(_) => None,
            };
            let ghost old_c = contents@;
            contents.push(content);
            proof {
                assert(contents@ =~= old_c.push(content));
                assert(fv[i as int] == files@[i as int]@);
                assert forall|k: int|
                    0 <= k < i + 1 implies (#[trigger] opt_texts_view(contents@)[k] matches Some(c)
                    ==> self.source.reads(fv[k], c)) by {
                    if k < i {
                        assert(opt_texts_view(contents@)[k] == opt_texts_view(old_c)[k]);
                    }
                }
            }
            i = i + 1;
        }
        let out = filter_candidates(&files, &contents);
        proof {
            let cs = opt_texts_view(contents@);
            let cv = candidates_view(out@);
            assert(cv == candidate_list(fv, cs));
            assert forall|k: int| 0 <= k < fv.len() implies (#[trigger] cs[k] matches Some(c)
                ==> self.source.reads(fv[k], c)) by {
                assert(cs[k] == opt_texts_view(contents@)[k]);
            }
            lemma_readable_candidates_wf(fv, cs, fv.len() as int);
        }
        out
    }

    /// Re-filters the snapshot of pages with the current query: the
    /// matching pages, sorted by title, become the browser list.
    pub fn apply_browser_filter(&mut self)
        ensures
            final(self)@ == old(self)@.apply_browser_filter(),
            final(self).source == old(self).source,
    {
        let lower = to_lowercase(self.browser_filter_query.as_str());
        let q = str_chars(lower.as_str());
        let ghost cands = candidates_view(self.browser_filter_candidates@);
        let ghost qs = self.browser_filter_query@;
        let mut matched: Vec<Entry> = Vec::new();
        let mut i: usize = 0;
        while i < self.browser_filter_candidates.len()
            invariant
                i <= self.browser_filter_candidates@.len(),
                cands == candidates_view(self.browser_filter_candidates@),
                qs == self.browser_filter_query@,
                q@ == lowercase(qs),
                entries_view(matched@) == matched_pages(cands, qs, i as int),
            decreases self.browser_filter_candidates@.len() - i,
        {
            let hay = str_chars(self.browser_filter_candidates[i].1.as_str());
            assert(cands[i as int] == (
                self.browser_filter_candidates@[i as int].0@,
                self.browser_filter_candidates@[i as int].1@,
            ));
            if contains_chars(hay.as_slice(), q.as_slice()) {
                let item = make_filtered_file_item(self.browser_filter_candidates[i].0.clone());
                let ghost prev = entries_view(matched@);
                let ghost old_m = matched@;
                let e = Entry { path: item.path, name: item.name, is_dir: false };
                matched.push(e);
                assert(matched@ =~= old_m.push(e));
                assert(entries_view(matched@) =~= prev.push(e@));
            }
            i = i + 1;
        }
        let sorted = sort_entries(&matched, false);
        let ghost sv = entries_view(sorted@);
        let mut items: Vec<FileItem> = Vec::new();
        let mut k: usize = 0;
        while k < sorted.len()
            invariant
                k <= sorted@.len(),
                sv == entries_view(sorted@),
                items_view(items@) == sv.take(k as int).map_values(|e: EntryView| item_of_entry(e, 0)),
            decreases sorted@.len() - k,
        {
            let e = Entry {
                path: sorted[k].path.clone(),
                name: sorted[k].name.clone(),
                is_dir: sorted[k].is_dir,
            };
            let ghost prev = items_view(items@);
            let ghost old_i = items@;
            assert(e@ == sv[k as int]);
            let it = make_file_item_from_entry(e, 0);
            items.push(it);
            assert(items@ =~= old_i.push(it));
            assert(items_view(items@) =~= prev.push(it@));
            assert(sv.take(k + 1) =~= sv.take(k as int).push(sv[k as int]));
            assert(sv.take(k + 1).map_values(|e: EntryView| item_of_entry(e, 0)) =~= sv.take(
                k as int,
            ).map_values(|e: EntryView| item_of_entry(e, 0)).push(item_of_entry(sv[k as int], 0)));
            k = k + 1;
        }
        assert(sv.take(sv.len() as int) =~= sv);
        self.file_items = items;
        self.browser_selected = 0;
        self.browser_offset = 0;
        assert(self@ =~= old(self)@.apply_browser_filter());
    }

    /// Starts a filter session (see `AppModel::browser_filter_start`).
    pub fn browser_filter_start(&mut self)
        ensures
            final(self)@ == old(self)@.browser_filter_start(final(self)@.browser_filter_candidates),
            candidates_wf(final(self)@.browser_filter_candidates),
            candidates_from(old(self).source, old(self).graph_path@, final(self)@.browser_filter_candidates),
            final(self).source == old(self).source,
    {
        if !self.browser_filter_query.as_str().is_empty() {
            self.file_items = copy_items(&self.browser_filter_saved_items);
            self.browser_selected = 0;
        }
        let ghost base = self@;
        self.browser_filter_saved_items = copy_items(&self.file_items);
        self.browser_filter_saved_selected = self.browser_selected;
        self.browser_filter_query = String::new();
        self.browser_filter_active = true;
        self.browser_filter_candidates = self.build_filter_candidates();
        assert(self@ =~= old(self)@.browser_filter_start(self@.browser_filter_candidates));
    }

    /// Adds a character to the filter query and re-applies it.
    pub fn browser_filter_input(&mut self, c: char)
        ensures
            final(self)@ == old(self)@.browser_filter_input(c),
            final(self).source == old(self).source,
    {
        string_push(&mut self.browser_filter_query, c);
        assert(self@ =~= AppModel { browser_filter_query: old(self)@.browser_filter_query.push(c), ..old(self)@ });
        self.apply_browser_filter();
    }

    /// Removes the last character of the filter query; an empty query
    /// restores the unfiltered tree.
    pub fn browser_filter_backspace(&mut self)
        ensures
            final(self)@ == old(self)@.browser_filter_backspace(),
            final(self).source == old(self).source,
    {
        let _ = string_pop(&mut self.browser_filter_query);
        if self.browser_filter_query.as_str().is_empty() {
            self.file_items = copy_items(&self.browser_filter_saved_items);
        } else {
            self.apply_browser_filter();
        }
        self.browser_selected = 0;
        self.browser_offset = 0;
        assert(self@ =~= old(self)@.browser_filter_backspace());
    }

    /// Commits the filter: leaves input mode, keeping the list and query.
    pub fn browser_filter_commit(&mut self)
        ensures
            final(self)@ == old(self)@.browser_filter_commit(),
            final(self).source == old(self).source,
    {
        self.browser_filter_active = false;
        assert(self@ =~= old(self)@.browser_filter_commit());
    }

    /// Cancels the filter, restoring the tree and the selection from before
    /// it started.
    pub fn browser_filter_cancel(&mut self)
        ensures
            final(self)@ == old(self)@.browser_filter_cancel(),
            final(self).source == old(self).source,
    {
        self.browser_filter_query = String::new();
        self.browser_filter_active = false;
        self.file_items = copy_items(&self.browser_filter_saved_items);
        self.browser_selected = self.browser_filter_saved_selected;
        assert(self@ =~= old(self)@.browser_filter_cancel());
    }
}


/// The state after typing `keys` into the filter: `Some(c)` types `c`,
/// `None` is Backspace.
pub open spec fn typed_filter(m: AppModel, keys: Seq<Option<char>>) -> AppModel
    decreases keys.len(),
{
    if keys.len() == 0 {
        m
    } else {
        let prev = typed_filter(m, keys.drop_last());
        match keys.last() {
            Some(c) => prev.browser_filter_input(c),
            None => prev.browser_filter_backspace(),
        }
    }
}

/// Typing into the filter keeps the snapshot it restores from.
pub proof fn lemma_typed_filter_keeps_snapshot(m: AppModel, keys: Seq<Option<char>>)
    ensures
        typed_filter(m, keys).browser_filter_saved_items == m.browser_filter_saved_items,
        typed_filter(m, keys).browser_filter_saved_selected == m.browser_filter_saved_selected,
    decreases keys.len(),
{
    if keys.len() > 0 {
        lemma_typed_filter_keeps_snapshot(m, keys.drop_last());
    }
}

/// Starting the filter, typing anything and cancelling gives back the
/// unfiltered tree and the selection from before the filter (the tree
/// under a filter committed earlier, with the selection at its top), with
/// the query cleared and input mode left.
pub proof fn lemma_filter_cancel_restores(
    m: AppModel,
    cands: Seq<(Seq<char>, Seq<char>)>,
    keys: Seq<Option<char>>,
)
    ensures
        ({
            let r = typed_filter(m.browser_filter_start(cands), keys).browser_filter_cancel();
            let committed = m.browser_filter_query.len() > 0;
            &&& r.file_items == if committed {
                m.browser_filter_saved_items
            } else {
                m.file_items
            }
            &&& r.browser_selected == if committed {
                0
            } else {
                m.browser_selected
            }
            &&& r.browser_filter_query.len() == 0
            &&& !r.browser_filter_active
        }),
{
    lemma_typed_filter_keeps_snapshot(m.browser_filter_start(cands), keys);
}


/// The matching pages are exactly the candidates whose searchable text
/// contains the lowercased query, each once, in candidate order.
pub proof fn lemma_matched_pages(cands: Seq<(Seq<char>, Seq<char>)>, q: Seq<char>, k: int)
    requires
        0 <= k <= cands.len(),
    ensures
        forall|j: int|
            0 <= j < k && contains_seq(#[trigger] cands[j].1, lowercase(q)) ==> matched_pages(
                cands,
                q,
                k,
            ).contains(filtered_entry(cands[j].0)),
        forall|x: EntryView|
            #[trigger] matched_pages(cands, q, k).contains(x) ==> exists|j: int|
                0 <= j < k && contains_seq(cands[j].1, lowercase(q)) && x == filtered_entry(
                    #[trigger] cands[j].0,
                ),
    decreases k,
{
    if k > 0 {
        lemma_matched_pages(cands, q, k - 1);
        let prev = matched_pages(cands, q, k - 1);
        let cur = matched_pages(cands, q, k);
        if contains_seq(cands[k - 1].1, lowercase(q)) {
            let e = filtered_entry(cands[k - 1].0);
            assert(cur == prev.push(e));
            assert(cur[prev.len() as int] == e);
            assert forall|j: int|
                0 <= j < k && contains_seq(#[trigger] cands[j].1, lowercase(q)) implies cur.contains(
                filtered_entry(cands[j].0),
            ) by {
                if j < k - 1 {
                    let t = choose|t: int| 0 <= t < prev.len() && prev[t] == filtered_entry(cands[j].0);
                    assert(cur[t] == prev[t]);
                }
            }
            assert forall|x: EntryView| #[trigger] cur.contains(x) implies exists|j: int|
                0 <= j < k && contains_seq(cands[j].1, lowercase(q)) && x == filtered_entry(
                    #[trigger] cands[j].0,
                ) by {
                let t = choose|t: int| 0 <= t < cur.len() && cur[t] == x;
                if t < prev.len() {
                    assert(prev[t] == x);
                    assert(prev.contains(x));
                } else {
                    assert(x == filtered_entry(cands[k - 1].0));
                }
            }
        }
    }
}

/// The browser filter's list is the matching pages sorted by title: flat
/// (every item at depth 0, none a directory), ordered by name, and for
/// every title holding the matching pages with that title in candidate
/// order, so every matching page appears exactly once and nothing else
/// does.
pub proof fn lemma_filter_items_sorted(cands: Seq<(Seq<char>, Seq<char>)>, q: Seq<char>)
    ensures
        ({
            let items = filter_items(cands, q);
            let m = matched_pages(cands, q, cands.len() as int);
            &&& forall|i: int, j: int|
                0 <= i < j < items.len() ==> !name_lt(#[trigger] items[j].name, #[trigger] items[i].name)
            &&& forall|i: int|
                0 <= i < items.len() ==> (#[trigger] items[i]).depth == 0 && !items[i].is_dir
                    && !items[i].is_expanded
            &&& exists|es: Seq<EntryView>|
                #[trigger] stable_sort_of(es, m, false) && items == crate::app::items_of_entries(es, 0)
        }),
{
    let m = matched_pages(cands, q, cands.len() as int);
    let es = sorted_by_name(m, false);
    lemma_sorted_by_name(m, false);
    let items = filter_items(cands, q);
    assert(items == crate::app::items_of_entries(es, 0));
    assert forall|i: int, j: int| 0 <= i < j < items.len() implies !name_lt(
        #[trigger] items[j].name,
        #[trigger] items[i].name,
    ) by {
        assert(items[i].name == es[i].name);
        assert(items[j].name == es[j].name);
        assert(!crate::source::precedes(es[j], es[i], false));
    }
    lemma_matched_pages(cands, q, cands.len() as int);
    assert forall|k: int| 0 <= k < m.len() implies !(#[trigger] m[k]).is_dir by {
        assert(m.contains(m[k]));
    }
    assert forall|i: int| 0 <= i < items.len() implies (#[trigger] items[i]).depth == 0 && !items[i].is_dir
        && !items[i].is_expanded by {
        lemma_sorted_preserves_files(m, es, i);
    }
}

/// Every matching page is a file entry, and so is every entry of a stable
/// sort of them.
proof fn lemma_sorted_preserves_files(m: Seq<EntryView>, es: Seq<EntryView>, i: int)
    requires
        stable_sort_of(es, m, false),
        forall|k: int| 0 <= k < m.len() ==> !(#[trigger] m[k]).is_dir,
        0 <= i < es.len(),
    ensures
        !es[i].is_dir,
{
    let n = es[i].name;
    let pred = |e: EntryView| e.name == n;
    assert(crate::source::with_name(es, n) == crate::source::with_name(m, n));
    assert(es.filter(pred) == m.filter(pred));
    es.lemma_filter_contains(pred, i);
    m.lemma_filter_contains_rev(pred, es[i]);
    let k = choose|k: int| 0 <= k < m.len() && m[k] == es[i];
    assert(!m[k].is_dir);
}

} // verus!
