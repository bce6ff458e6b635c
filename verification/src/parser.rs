//! The Logseq markdown parser: raw file text to `ParsedLine`s, the inline
//! syntax of one line to `Segment`s, and the text a parsed line displays as.
//!
//! Every function here is pure and stated over character sequences: a line
//! of the file is `lines_of(content)[k]`, and each parsed value has a view
//! made of `Seq<char>`s.

use vstd::prelude::*;
use crate::text::{
    alphanumeric, find_from, is_alphanumeric, is_white_space, is_whitespace, lemma_find_from,
    matches_at, str_chars, string_from_chars, string_from_range,
};

verus! {

// ---------------------------------------------------------------------------
// Types and their views
// ---------------------------------------------------------------------------

#[derive(Debug, Clone, Copy, PartialEq, Eq, Structural)]
pub enum TaskState {
    Todo,
    Done,
    Later,
    Now,
    Waiting,
    Cancelled,
}

/// The keyword a task state is written with.
pub open spec fn task_keyword(t: TaskState) -> Seq<char> {
    match t {
        TaskState::Todo => seq!['T', 'O', 'D', 'O'],
        TaskState::Done => seq!['D', 'O', 'N', 'E'],
        TaskState::Later => seq!['L', 'A', 'T', 'E', 'R'],
        TaskState::Now => seq!['N', 'O', 'W'],
        TaskState::Waiting => seq!['W', 'A', 'I', 'T', 'I', 'N', 'G'],
        TaskState::Cancelled => seq!['C', 'A', 'N', 'C', 'E', 'L', 'L', 'E', 'D'],
    }
}

impl TaskState {
    /// This state's keyword, as written before a task's text.
    pub fn keyword(&self) -> (r: &'static str)
        ensures
            r@ == task_keyword(*self),
    {
        match self {
            TaskState::Todo => {
                proof {
                    reveal_strlit("TODO");
                }
                "TODO"
            },
            TaskState::Done => {
                proof {
                    reveal_strlit("DONE");
                }
                "DONE"
            },
            TaskState::Later => {
                proof {
                    reveal_strlit("LATER");
                }
                "LATER"
            },
            TaskState::Now => {
                proof {
                    reveal_strlit("NOW");
                }
                "NOW"
            },
            TaskState::Waiting => {
                proof {
                    reveal_strlit("WAITING");
                }
                "WAITING"
            },
            TaskState::Cancelled => {
                proof {
                    reveal_strlit("CANCELLED");
                }
                "CANCELLED"
            },
        }
    }
}

#[derive(Debug, Clone, PartialEq)]
pub enum Segment {
    Plain(String),
    PageLink(String),
    Tag(String),
    Bold(String),
    Italic(String),
    Code(String),
    BlockRef(String),
    Property(String, String),
}

/// A `Segment` with its strings taken as character sequences.
pub enum SegmentView {
    Plain(Seq<char>),
    PageLink(Seq<char>),
    Tag(Seq<char>),
    Bold(Seq<char>),
    Italic(Seq<char>),
    Code(Seq<char>),
    BlockRef(Seq<char>),
    Property(Seq<char>, Seq<char>),
}

impl View for Segment {
    type V = SegmentView;

    open spec fn view(&self) -> SegmentView {
        match self {
            Segment::Plain(s) => SegmentView::Plain(s@),
            Segment::PageLink(s) => SegmentView::PageLink(s@),
            Segment::Tag(s) => SegmentView::Tag(s@),
            Segment::Bold(s) => SegmentView::Bold(s@),
            Segment::Italic(s) => SegmentView::Italic(s@),
            Segment::Code(s) => SegmentView::Code(s@),
            Segment::BlockRef(s) => SegmentView::BlockRef(s@),
            Segment::Property(k, v) => SegmentView::Property(k@, v@),
        }
    }
}

/// The views of a sequence of segments.
pub open spec fn segs_view(v: Seq<Segment>) -> Seq<SegmentView> {
    v.map_values(|s: Segment| s@)
}

/// A single logical line of parsed content.
///
/// `src_start`/`src_end` record the RAW-file line range this `ParsedLine`
/// was parsed from, as a 0-based, HALF-OPEN range `[src_start, src_end)`
/// (same convention as `app::block_range_at`). For an ordinary line this is
/// exactly one raw line (`src_end == src_start + 1`). A fenced code block is
/// FOLDED into a single `ParsedLine` (see `parse_file`), so its span covers
/// every raw line from the opening fence through the closing fence (or
/// through EOF, if unterminated).
#[derive(Debug, Clone, Default)]
pub struct ParsedLine {
    pub indent: usize,
    pub is_bullet: bool,
    pub task: Option<TaskState>,
    pub segments: Vec<Segment>,
    pub src_start: usize,
    pub src_end: usize,
}

/// A `ParsedLine` with its segments taken by their views.
pub struct ParsedLineView {
    pub indent: usize,
    pub is_bullet: bool,
    pub task: Option<TaskState>,
    pub segments: Seq<SegmentView>,
    pub src_start: usize,
    pub src_end: usize,
}

impl View for ParsedLine {
    type V = ParsedLineView;

    open spec fn view(&self) -> ParsedLineView {
        ParsedLineView {
            indent: self.indent,
            is_bullet: self.is_bullet,
            task: self.task,
            segments: segs_view(self.segments@),
            src_start: self.src_start,
            src_end: self.src_end,
        }
    }
}

/// The views of a sequence of parsed lines.
pub open spec fn lines_view(v: Seq<ParsedLine>) -> Seq<ParsedLineView> {
    v.map_values(|l: ParsedLine| l@)
}

/// An exact copy of a segment.
pub fn copy_segment(s: &Segment) -> (r: Segment)
    ensures
        r@ == s@,
{
    match s {
        Segment::Plain(x) => Segment::Plain(x.clone()),
        Segment::PageLink(x) => Segment::PageLink(x.clone()),
        Segment::Tag(x) => Segment::Tag(x.clone()),
        Segment::Bold(x) => Segment::Bold(x.clone()),
        Segment::Italic(x) => Segment::Italic(x.clone()),
        Segment::Code(x) => Segment::Code(x.clone()),
        Segment::BlockRef(x) => Segment::BlockRef(x.clone()),
        Segment::Property(k, v) => Segment::Property(k.clone(), v.clone()),
    }
}

/// An exact copy of a parsed line.
pub fn copy_line(l: &ParsedLine) -> (r: ParsedLine)
    ensures
        r@ == l@,
{
    let mut segments: Vec<Segment> = Vec::new();
    let mut i: usize = 0;
    while i < l.segments.len()
        invariant
            i <= l.segments@.len(),
            segments@.len() == i,
            forall|k: int| 0 <= k < i ==> segments@[k]@ == l.segments@[k]@,
        decreases l.segments@.len() - i,
    {
        segments.push(copy_segment(&l.segments[i]));
        i = i + 1;
    }
    assert(segs_view(segments@) =~= segs_view(l.segments@));
    ParsedLine {
        indent: l.indent,
        is_bullet: l.is_bullet,
        task: l.task,
        segments,
        src_start: l.src_start,
        src_end: l.src_end,
    }
}

// ---------------------------------------------------------------------------
// Raw lines
// ---------------------------------------------------------------------------

/// Index of the first `'\n'` in `s`, or `s.len()` if there is none.
pub open spec fn newline_index(s: Seq<char>) -> int
    decreases s.len(),
{
    if s.len() == 0 {
        0
    } else if s[0] == '\n' {
        0
    } else {
        1 + newline_index(s.drop_first())
    }
}

/// A line without its `'\r'`, when it ended in `"\r\n"`.
pub open spec fn strip_cr(l: Seq<char>) -> Seq<char> {
    if l.len() > 0 && l.last() == '\r' {
        l.drop_last()
    } else {
        l
    }
}

/// The lines of `s` exactly as `str::lines` yields them: split at `'\n'`,
/// each `"\r\n"` ending dropped whole, the final line ending optional (a
/// `'\r'` at the very end, with no `'\n'` after it, stays in the last line).
pub open spec fn lines_of(s: Seq<char>) -> Seq<Seq<char>>
    decreases s.len(),
{
    if s.len() == 0 {
        seq![]
    } else {
        let p = newline_index(s);
        if p < s.len() {
            proof {
                lemma_newline_index(s);
            }
            seq![strip_cr(s.take(p))] + lines_of(s.skip(p + 1))
        } else {
            seq![s]
        }
    }
}

/// `newline_index` finds the first `'\n'`.
pub proof fn lemma_newline_index(s: Seq<char>)
    ensures
        0 <= newline_index(s) <= s.len(),
        newline_index(s) < s.len() ==> s[newline_index(s)] == '\n',
        forall|k: int| 0 <= k < newline_index(s) ==> s[k] != '\n',
    decreases s.len(),
{
    if s.len() > 0 && s[0] != '\n' {
        lemma_newline_index(s.drop_first());
        assert forall|k: int| 0 <= k < newline_index(s) implies s[k] != '\n' by {
            if k > 0 {
                assert(s[k] == s.drop_first()[k - 1]);
            }
        }
    }
}

/// A `newline_index` found by scanning from `start`.
proof fn lemma_newline_index_at(s: Seq<char>, start: int, p: int)
    requires
        0 <= start <= p <= s.len(),
        p == s.len() || s[p] == '\n',
        forall|k: int| start <= k < p ==> s[k] != '\n',
    ensures
        newline_index(s.skip(start)) == p - start,
    decreases p - start,
{
    let t = s.skip(start);
    if p == start {
        if t.len() > 0 {
            assert(t[0] == s[start]);
        }
    } else {
        assert(t[0] == s[start]);
        lemma_newline_index_at(s, start + 1, p);
        assert(t.drop_first() =~= s.skip(start + 1));
    }
}

/// The raw lines of `s`, as `str::lines` splits them.
pub fn split_lines(s: &[char]) -> (r: Vec<Vec<char>>)
    ensures
        r@.map_values(|l: Vec<char>| l@) == lines_of(s@),
{
    let mut out: Vec<Vec<char>> = Vec::new();
    let mut start: usize = 0;
    assert(s@.skip(0) =~= s@);
    assert(out@.map_values(|l: Vec<char>| l@) =~= Seq::<Seq<char>>::empty());
    while start < s.len()
        invariant
            start <= s@.len(),
            out@.map_values(|l: Vec<char>| l@) + lines_of(s@.skip(start as int)) == lines_of(s@),
        decreases s@.len() - start,
    {
        let ghost rest = s@.skip(start as int);
        let mut p: usize = start;
        while p < s.len() && s[p] != '\n'
            invariant
                start <= p <= s@.len(),
                forall|k: int| start <= k < p ==> s@[k] != '\n',
            decreases s@.len() - p,
        {
            p = p + 1;
        }
        proof {
            lemma_newline_index_at(s@, start as int, p as int);
        }
        let mut line: Vec<char> = Vec::new();
        let mut k: usize = start;
        while k < p
            invariant
                start <= k <= p <= s@.len(),
                line@ == s@.subrange(start as int, k as int),
            decreases p - k,
        {
            line.push(s[k]);
            k = k + 1;
            assert(line@ =~= s@.subrange(start as int, k as int));
        }
        if p > start && s[p - 1] == '\r' && p < s.len() {
            line.pop();
        }
        let ghost old_out = out@.map_values(|l: Vec<char>| l@);
        out.push(line);
        proof {
            if p < s@.len() {
                assert(rest.take(p - start) =~= s@.subrange(start as int, p as int));
                assert(rest.skip(p - start + 1) =~= s@.skip(p + 1));
                assert(lines_of(rest) == seq![strip_cr(rest.take(p - start))] + lines_of(
                    rest.skip(p - start + 1),
                ));
                assert(out@.map_values(|l: Vec<char>| l@) =~= old_out.push(
                    strip_cr(rest.take(p - start)),
                ));
            } else {
                assert(rest =~= s@.subrange(start as int, p as int));
                assert(lines_of(rest) == seq![rest]);
                assert(out@.map_values(|l: Vec<char>| l@) =~= old_out.push(rest));
                assert(s@.skip(p as int) =~= Seq::<char>::empty());
            }
        }
        if p < s.len() {
            start = p + 1;
        } else {
            start = p;
        }
        proof {
            assert(out@.map_values(|l: Vec<char>| l@) + lines_of(s@.skip(start as int))
                =~= lines_of(s@));
        }
    }
    proof {
        assert(s@.skip(start as int) =~= Seq::<char>::empty());
        assert(out@.map_values(|l: Vec<char>| l@) + Seq::<Seq<char>>::empty() =~= out@.map_values(
            |l: Vec<char>| l@,
        ));
    }
    out
}

// ---------------------------------------------------------------------------
// Inline syntax
// ---------------------------------------------------------------------------

/// A character that may continue a `#tag`.
pub open spec fn tag_char(c: char) -> bool {
    alphanumeric(c) || c == '-' || c == '_'
}

/// The first index `>= k` holding a character that cannot continue a tag,
/// or `s.len()`.
pub open spec fn tag_end(s: Seq<char>, k: int) -> int
    decreases s.len() - k,
{
    if k >= s.len() {
        s.len() as int
    } else if !tag_char(s[k]) {
        k
    } else {
        tag_end(s, k + 1)
    }
}

proof fn lemma_tag_end(s: Seq<char>, k: int)
    requires
        0 <= k <= s.len(),
    ensures
        k <= tag_end(s, k) <= s.len(),
        forall|m: int| k <= m < tag_end(s, k) ==> tag_char(s[m]),
        tag_end(s, k) < s.len() ==> !tag_char(s[tag_end(s, k)]),
    decreases s.len() - k,
{
    if k < s.len() && tag_char(s[k]) {
        lemma_tag_end(s, k + 1);
    }
}

/// The inline construct that starts at index `i` of `s`, if any: the
/// segment it stands for and the index just past it. The rules are tried
/// in this order: `[[page link]]`, `((block ref))`, `**bold**`, `` `code` ``,
/// `*italic*` (a single `*`), `_italic_` (only at word boundaries on both
/// sides), `#tag`.
pub open spec fn inline_rule(s: Seq<char>, i: int) -> Option<(SegmentView, int)> {
    let link = find_from(s, i + 2, seq![']', ']']);
    let bref = find_from(s, i + 2, seq![')', ')']);
    let bold = find_from(s, i + 2, seq!['*', '*']);
    let code = find_from(s, i + 1, seq!['`']);
    let star = find_from(s, i + 1, seq!['*']);
    let under = find_from(s, i + 1, seq!['_']);
    let te = tag_end(s, i + 1);
    if matches_at(s, i, seq!['[', '[']) && link is Some {
        Some((SegmentView::PageLink(s.subrange(i + 2, link->0)), link->0 + 2))
    } else if matches_at(s, i, seq!['(', '(']) && bref is Some {
        Some((SegmentView::BlockRef(s.subrange(i + 2, bref->0)), bref->0 + 2))
    } else if matches_at(s, i, seq!['*', '*']) && bold is Some {
        Some((SegmentView::Bold(s.subrange(i + 2, bold->0)), bold->0 + 2))
    } else if s[i] == '`' && code is Some {
        Some((SegmentView::Code(s.subrange(i + 1, code->0)), code->0 + 1))
    } else if s[i] == '*' && !(i + 1 < s.len() && s[i + 1] == '*') && star is Some {
        Some((SegmentView::Italic(s.subrange(i + 1, star->0)), star->0 + 1))
    } else if s[i] == '_' && (i == 0 || !alphanumeric(s[i - 1])) && under is Some && (under->0
        + 1 >= s.len() || !alphanumeric(s[under->0 + 1])) {
        Some((SegmentView::Italic(s.subrange(i + 1, under->0)), under->0 + 1))
    } else if s[i] == '#' && te > i + 1 {
        Some((SegmentView::Tag(s.subrange(i + 1, te)), te))
    } else {
        None
    }
}

/// An inline construct always ends after it starts and inside the text.
pub proof fn lemma_inline_rule(s: Seq<char>, i: int)
    requires
        0 <= i < s.len(),
    ensures
        inline_rule(s, i) matches Some((seg, next)) ==> i < next <= s.len(),
{
    lemma_find_from(s, i + 2, seq![']', ']']);
    lemma_find_from(s, i + 2, seq![')', ')']);
    lemma_find_from(s, i + 2, seq!['*', '*']);
    lemma_find_from(s, i + 1, seq!['`']);
    lemma_find_from(s, i + 1, seq!['*']);
    lemma_find_from(s, i + 1, seq!['_']);
    lemma_tag_end(s, i + 1);
}

/// A `#` followed by a letter, digit (any alphanumeric character), `-` or
/// `_` starts a tag whose text is the longest run of such characters after
/// the `#`; a `#` followed by anything else, or by nothing, starts no
/// inline construct.
pub proof fn lemma_tag_rule(s: Seq<char>, i: int)
    requires
        0 <= i < s.len(),
        s[i] == '#',
    ensures
        inline_rule(s, i) is None <==> !(i + 1 < s.len() && (alphanumeric(s[i + 1]) || s[i + 1] == '-'
            || s[i + 1] == '_')),
        inline_rule(s, i) matches Some((seg, e)) ==> i + 1 < e <= s.len() && seg == SegmentView::Tag(
            s.subrange(i + 1, e),
        ) && (forall|m: int|
            i + 1 <= m < e ==> alphanumeric(#[trigger] s[m]) || s[m] == '-' || s[m] == '_') && (e
            == s.len() || !(alphanumeric(s[e]) || s[e] == '-' || s[e] == '_')),
{
    lemma_tag_end(s, i + 1);
    assert(!matches_at(s, i, seq!['[', '['])) by {
        if matches_at(s, i, seq!['[', '[']) {
            assert(s.subrange(i, i + 2)[0] == s[i]);
        }
    }
    assert(!matches_at(s, i, seq!['(', '('])) by {
        if matches_at(s, i, seq!['(', '(']) {
            assert(s.subrange(i, i + 2)[0] == s[i]);
        }
    }
    assert(!matches_at(s, i, seq!['*', '*'])) by {
        if matches_at(s, i, seq!['*', '*']) {
            assert(s.subrange(i, i + 2)[0] == s[i]);
        }
    }
    let te = tag_end(s, i + 1);
    if i + 1 < s.len() {
        assert(te > i + 1 <==> tag_char(s[i + 1]));
    }
}

/// The pending plain text, as a segment if it is not empty./// The pending plain text, as a segment if it is not empty.
pub open spec fn flush(buf: Seq<char>) -> Seq<SegmentView> {
    if buf.len() == 0 {
        seq![]
    } else {
        seq![SegmentView::Plain(buf)]
    }
}

/// The segments of `s` from index `i` on, with `buf` the plain text
/// gathered just before `i`: characters that start no inline construct
/// accumulate into one `Plain` segment, which ends where a construct starts.
pub open spec fn inline_from(s: Seq<char>, i: int, buf: Seq<char>) -> Seq<SegmentView>
    decreases s.len() - i,
{
    if i < 0 || i >= s.len() {
        flush(buf)
    } else {
        match inline_rule(s, i) {
            Some((seg, next)) => {
                proof {
                    lemma_inline_rule(s, i);
                }
                flush(buf) + seq![seg] + inline_from(s, next, seq![])
            },
            None => inline_from(s, i + 1, buf.push(s[i])),
        }
    }
}

/// The inline segments of one line's text.
pub open spec fn inline_segments(s: Seq<char>) -> Seq<SegmentView> {
    inline_from(s, 0, seq![])
}

/// The text a segment is written as, `mark` being the character that
/// opens and closes an italic (`*` or `_`).
pub open spec fn segment_source(seg: SegmentView, mark: char) -> Seq<char> {
    match seg {
        SegmentView::Plain(t) => t,
        SegmentView::PageLink(t) => seq!['[', '['] + t + seq![']', ']'],
        SegmentView::BlockRef(t) => seq!['(', '('] + t + seq![')', ')'],
        SegmentView::Bold(t) => seq!['*', '*'] + t + seq!['*', '*'],
        SegmentView::Code(t) => seq!['`'] + t + seq!['`'],
        SegmentView::Tag(t) => seq!['#'] + t,
        SegmentView::Italic(t) => seq![mark] + t + seq![mark],
        SegmentView::Property(k, v) => k + seq![':', ':', ' '] + v,
    }
}

/// The texts of `segs` written out, in order, italics with `marks`.
pub open spec fn segments_source(segs: Seq<SegmentView>, marks: Seq<char>) -> Seq<char>
    decreases segs.len(),
{
    if segs.len() == 0 {
        seq![]
    } else {
        segment_source(segs[0], marks[0]) + segments_source(segs.drop_first(), marks.drop_first())
    }
}

/// The character at which each segment of `inline_from(s, i, buf)` starts
/// (a space for plain text, whose source needs no mark).
pub open spec fn inline_marks_from(s: Seq<char>, i: int, buf: Seq<char>) -> Seq<char>
    decreases s.len() - i,
{
    let flushed: Seq<char> = if buf.len() == 0 {
        seq![]
    } else {
        seq![' ']
    };
    if i < 0 || i >= s.len() {
        flushed
    } else {
        match inline_rule(s, i) {
            Some((seg, next)) => {
                proof {
                    lemma_inline_rule(s, i);
                }
                flushed + seq![s[i]] + inline_marks_from(s, next, seq![])
            },
            None => inline_marks_from(s, i + 1, buf.push(s[i])),
        }
    }
}

/// Segments well formed as inline parsing makes them: no empty plain text,
/// no two plain texts in a row, and no property.
pub open spec fn inline_shaped(segs: Seq<SegmentView>) -> bool {
    &&& forall|k: int| 0 <= k < segs.len() ==> !(#[trigger] segs[k] is Property)
    &&& forall|k: int|
        0 <= k < segs.len() ==> (#[trigger] segs[k] matches SegmentView::Plain(t) ==> t.len() > 0)
    &&& forall|k: int|
        0 <= k < segs.len() - 1 ==> !(#[trigger] segs[k] is Plain && segs[k + 1] is Plain)
}

proof fn lemma_segments_source_one(seg: SegmentView, m: char)
    ensures
        segments_source(seq![seg], seq![m]) == segment_source(seg, m),
{
    let e = Seq::<SegmentView>::empty();
    assert(seq![seg].drop_first() =~= e);
    assert(seq![m].drop_first() =~= Seq::<char>::empty());
    assert(segments_source(e, Seq::<char>::empty()) == Seq::<char>::empty());
    assert(segment_source(seg, m) + Seq::<char>::empty() =~= segment_source(seg, m));
}

proof fn lemma_segments_source_concat(a: Seq<SegmentView>, ma: Seq<char>, b: Seq<SegmentView>, mb: Seq<char>)
    requires
        a.len() == ma.len(),
    ensures
        segments_source(a + b, ma + mb) == segments_source(a, ma) + segments_source(b, mb),
    decreases a.len(),
{
    if a.len() > 0 {
        lemma_segments_source_concat(a.drop_first(), ma.drop_first(), b, mb);
        assert((a + b).drop_first() =~= a.drop_first() + b);
        assert((ma + mb).drop_first() =~= ma.drop_first() + mb);
        assert((a + b)[0] == a[0]);
        assert((ma + mb)[0] == ma[0]);
    } else {
        assert(a + b =~= b);
        assert(ma + mb =~= mb);
    }
}

/// A rule's segment, written with the character it starts at, is the text
/// it was read from.
proof fn lemma_inline_rule_source(s: Seq<char>, i: int)
    requires
        0 <= i < s.len(),
        inline_rule(s, i) is Some,
    ensures
        ({
            let (seg, next) = inline_rule(s, i)->0;
            &&& segment_source(seg, s[i]) == s.subrange(i, next)
            &&& !(seg is Plain) && !(seg is Property)
            &&& seg is Italic ==> s[i] == '*' || s[i] == '_'
        }),
{
    lemma_find_from(s, i + 2, seq![']', ']']);
    lemma_find_from(s, i + 2, seq![')', ')']);
    lemma_find_from(s, i + 2, seq!['*', '*']);
    lemma_find_from(s, i + 1, seq!['`']);
    lemma_find_from(s, i + 1, seq!['*']);
    lemma_find_from(s, i + 1, seq!['_']);
    lemma_tag_end(s, i + 1);
    let (seg, next) = inline_rule(s, i)->0;
    let src = s.subrange(i, next);
    let link = find_from(s, i + 2, seq![']', ']']);
    let bref = find_from(s, i + 2, seq![')', ')']);
    let bold = find_from(s, i + 2, seq!['*', '*']);
    let code = find_from(s, i + 1, seq!['`']);
    let star = find_from(s, i + 1, seq!['*']);
    let under = find_from(s, i + 1, seq!['_']);
    if matches_at(s, i, seq!['[', '[']) && link is Some {
        let j = link->0;
        assert(s.subrange(i, i + 2) == seq!['[', '[']);
        assert(s.subrange(j, j + 2) == seq![']', ']']);
        assert(src =~= seq!['[', '['] + s.subrange(i + 2, j) + seq![']', ']']);
    } else if matches_at(s, i, seq!['(', '(']) && bref is Some {
        let j = bref->0;
        assert(s.subrange(i, i + 2) == seq!['(', '(']);
        assert(s.subrange(j, j + 2) == seq![')', ')']);
        assert(src =~= seq!['(', '('] + s.subrange(i + 2, j) + seq![')', ')']);
    } else if matches_at(s, i, seq!['*', '*']) && bold is Some {
        let j = bold->0;
        assert(s.subrange(i, i + 2) == seq!['*', '*']);
        assert(s.subrange(j, j + 2) == seq!['*', '*']);
        assert(src =~= seq!['*', '*'] + s.subrange(i + 2, j) + seq!['*', '*']);
    } else if s[i] == '`' && code is Some {
        let j = code->0;
        assert(s.subrange(j, j + 1) == seq!['`']);
        assert(src =~= seq!['`'] + s.subrange(i + 1, j) + seq!['`']);
    } else if s[i] == '*' && !(i + 1 < s.len() && s[i + 1] == '*') && star is Some {
        let j = star->0;
        assert(s.subrange(j, j + 1) == seq!['*']);
        assert(src =~= seq![s[i]] + s.subrange(i + 1, j) + seq![s[i]]);
    } else if s[i] == '_' && (i == 0 || !alphanumeric(s[i - 1])) && under is Some && (under->0 + 1
        >= s.len() || !alphanumeric(s[under->0 + 1])) {
        let j = under->0;
        assert(s.subrange(j, j + 1) == seq!['_']);
        assert(src =~= seq![s[i]] + s.subrange(i + 1, j) + seq![s[i]]);
    } else {
        let te = tag_end(s, i + 1);
        assert(src =~= seq!['#'] + s.subrange(i + 1, te));
    }
}

proof fn lemma_inline_from_source(s: Seq<char>, i: int, buf: Seq<char>)
    requires
        0 <= i <= s.len(),
    ensures
        inline_marks_from(s, i, buf).len() == inline_from(s, i, buf).len(),
        segments_source(inline_from(s, i, buf), inline_marks_from(s, i, buf)) == buf + s.skip(i),
        inline_shaped(inline_from(s, i, buf)),
        forall|k: int|
            0 <= k < inline_from(s, i, buf).len() ==> (#[trigger] inline_from(s, i, buf)[k] is Italic
                ==> inline_marks_from(s, i, buf)[k] == '*' || inline_marks_from(s, i, buf)[k] == '_'),
    decreases s.len() - i,
{
    let fl = flush(buf);
    let fm: Seq<char> = if buf.len() == 0 {
        seq![]
    } else {
        seq![' ']
    };
    assert(segments_source(fl, fm) == buf) by {
        if buf.len() > 0 {
            lemma_segments_source_one(SegmentView::Plain(buf), ' ');
        }
    }
    if i >= s.len() {
        assert(s.skip(i) =~= Seq::<char>::empty());
        assert(buf + s.skip(i) =~= buf);
    } else {
        match inline_rule(s, i) {
            Some((seg, next)) => {
                lemma_inline_rule(s, i);
                lemma_inline_rule_source(s, i);
                lemma_inline_from_source(s, next, seq![]);
                let rest = inline_from(s, next, seq![]);
                let rm = inline_marks_from(s, next, seq![]);
                let segs = fl + seq![seg] + rest;
                let ms = fm + seq![s[i]] + rm;
                assert(inline_from(s, i, buf) == segs);
                assert(inline_marks_from(s, i, buf) == ms);
                lemma_segments_source_concat(fl + seq![seg], fm + seq![s[i]], rest, rm);
                lemma_segments_source_concat(fl, fm, seq![seg], seq![s[i]]);
                lemma_segments_source_one(seg, s[i]);
                assert(Seq::<char>::empty() + s.skip(next) =~= s.skip(next));
                assert(buf + s.skip(i) =~= buf + s.subrange(i, next) + s.skip(next));
                assert forall|k: int| 0 <= k < segs.len() implies !(#[trigger] segs[k] is Property) by {
                    if k >= fl.len() + 1 {
                        assert(segs[k] == rest[k - fl.len() - 1]);
                    }
                }
                assert forall|k: int| 0 <= k < segs.len() implies (#[trigger] segs[k] matches SegmentView::Plain(t) ==> t.len() > 0) by {
                    if k >= fl.len() + 1 {
                        assert(segs[k] == rest[k - fl.len() - 1]);
                    }
                }
                assert forall|k: int| 0 <= k < segs.len() - 1 implies !(#[trigger] segs[k] is Plain && segs[k + 1] is Plain) by {
                    if k >= fl.len() + 1 {
                        assert(segs[k] == rest[k - fl.len() - 1]);
                        assert(segs[k + 1] == rest[k + 1 - fl.len() - 1]);
                    } else if k == fl.len() {
                        assert(segs[k] == seg);
                    } else {
                        assert(segs[k + 1] == seg);
                    }
                }
                assert forall|k: int| 0 <= k < segs.len() implies (#[trigger] segs[k] is Italic
                    ==> ms[k] == '*' || ms[k] == '_') by {
                    if k >= fl.len() + 1 {
                        assert(segs[k] == rest[k - fl.len() - 1]);
                        assert(ms[k] == rm[k - fl.len() - 1]);
                    } else if k == fl.len() {
                        assert(segs[k] == seg);
                        assert(ms[k] == s[i]);
                    }
                }
            },
            None => {
                lemma_inline_from_source(s, i + 1, buf.push(s[i]));
                assert(buf.push(s[i]) + s.skip(i + 1) =~= buf + s.skip(i));
            },
        }
    }
}

/// Inline parsing loses nothing: writing each segment back as its source
/// (a page link in `[[..]]`, a block ref in `((..))`, bold in `**..**`,
/// code in backticks, a tag after `#`, an italic between two `*` or two
/// `_`) and concatenating gives the text back. No plain segment is empty,
/// no two plain segments are adjacent, and no property appears.
pub proof fn lemma_inline_round_trip(s: Seq<char>)
    ensures
        inline_shaped(inline_segments(s)),
        exists|marks: Seq<char>|
            marks.len() == inline_segments(s).len() && (forall|k: int|
                0 <= k < marks.len() ==> (#[trigger] inline_segments(s)[k] is Italic ==> marks[k]
                    == '*' || marks[k] == '_')) && #[trigger] segments_source(
                inline_segments(s),
                marks,
            ) == s,
{
    lemma_inline_from_source(s, 0, seq![]);
    assert(Seq::<char>::empty() + s.skip(0) =~= s);
    let marks = inline_marks_from(s, 0, seq![]);
    assert(segments_source(inline_segments(s), marks) == s);
}

fn find_one(s: &[char], from: usize, c: char) -> (r: Option<usize>)
    ensures
        r matches Some(j) ==> find_from(s@, from as int, seq![c]) == Some(j as int),
        r is None ==> find_from(s@, from as int, seq![c]) is None,
{
    let mut j: usize = from;
    loop
        invariant
            from <= j,
            find_from(s@, from as int, seq![c]) == find_from(s@, j as int, seq![c]),
        decreases s@.len() + 1 - j,
    {
        if j >= s.len() {
            return None;
        }
        if s[j] == c {
            assert(s@.subrange(j as int, j + 1) =~= seq![c]);
            return Some(j);
        }
        assert(s@.subrange(j as int, j + 1)[0] != seq![c][0]);
        j = j + 1;
    }
}

fn find_two(s: &[char], from: usize, a: char, b: char) -> (r: Option<usize>)
    ensures
        r matches Some(j) ==> find_from(s@, from as int, seq![a, b]) == Some(j as int),
        r is None ==> find_from(s@, from as int, seq![a, b]) is None,
{
    let mut j: usize = from;
    loop
        invariant
            from <= j,
            find_from(s@, from as int, seq![a, b]) == find_from(s@, j as int, seq![a, b]),
        decreases s@.len() + 1 - j,
    {
        if j >= s.len() || s.len() - j < 2 {
            return None;
        }
        if s[j] == a && s[j + 1] == b {
            assert(s@.subrange(j as int, j + 2) =~= seq![a, b]);
            return Some(j);
        }
        assert(s@.subrange(j as int, j + 2)[0] != seq![a, b][0] || s@.subrange(j as int, j + 2)[1]
            != seq![a, b][1]);
        j = j + 1;
    }
}

fn tag_end_exec(s: &[char], k: usize) -> (r: usize)
    requires
        k <= s@.len(),
    ensures
        r == tag_end(s@, k as int),
{
    let mut j: usize = k;
    while j < s.len() && (is_alphanumeric(s[j]) || s[j] == '-' || s[j] == '_')
        invariant
            k <= j <= s@.len(),
            tag_end(s@, k as int) == tag_end(s@, j as int),
        decreases s@.len() - j,
    {
        j = j + 1;
    }
    j
}

/// Executable `inline_rule`.
fn inline_rule_exec(s: &[char], i: usize) -> (r: Option<(Segment, usize)>)
    requires
        i < s@.len(),
    ensures
        r matches Some((seg, next)) ==> inline_rule(s@, i as int) == Some((seg@, next as int)),
        r is None ==> inline_rule(s@, i as int) is None,
{
    proof {
        lemma_inline_rule(s@, i as int);
        lemma_find_from(s@, i + 2, seq![']', ']']);
        lemma_find_from(s@, i + 2, seq![')', ')']);
        lemma_find_from(s@, i + 2, seq!['*', '*']);
        lemma_find_from(s@, i + 1, seq!['`']);
        lemma_find_from(s@, i + 1, seq!['*']);
        lemma_find_from(s@, i + 1, seq!['_']);
        lemma_tag_end(s@, i + 1);
    }
    let n = s.len();
    let two = n - i >= 2;
    if two && s[i] == '[' && s[i + 1] == '[' {
        assert(matches_at(s@, i as int, seq!['[', '['])) by {
            assert(s@.subrange(i as int, i + 2) =~= seq!['[', '[']);
        }
        if let Some(j) = find_two(s, i + 2, ']', ']') {
            return Some((Segment::PageLink(string_from_range(s, i + 2, j)), j + 2));
        }
    } else {
        assert(!matches_at(s@, i as int, seq!['[', '['])) by {
            if two {
                assert(s@.subrange(i as int, i + 2)[0] == s@[i as int]);
                assert(s@.subrange(i as int, i + 2)[1] == s@[i + 1]);
            }
        }
    }
    if two && s[i] == '(' && s[i + 1] == '(' {
        assert(matches_at(s@, i as int, seq!['(', '('])) by {
            assert(s@.subrange(i as int, i + 2) =~= seq!['(', '(']);
        }
        if let Some(j) = find_two(s, i + 2, ')', ')') {
            return Some((Segment::BlockRef(string_from_range(s, i + 2, j)), j + 2));
        }
    } else {
        assert(!matches_at(s@, i as int, seq!['(', '('])) by {
            if two {
                assert(s@.subrange(i as int, i + 2)[0] == s@[i as int]);
                assert(s@.subrange(i as int, i + 2)[1] == s@[i + 1]);
            }
        }
    }
    if two && s[i] == '*' && s[i + 1] == '*' {
        assert(matches_at(s@, i as int, seq!['*', '*'])) by {
            assert(s@.subrange(i as int, i + 2) =~= seq!['*', '*']);
        }
        if let Some(j) = find_two(s, i + 2, '*', '*') {
            return Some((Segment::Bold(string_from_range(s, i + 2, j)), j + 2));
        }
    } else {
        assert(!matches_at(s@, i as int, seq!['*', '*'])) by {
            if two {
                assert(s@.subrange(i as int, i + 2)[0] == s@[i as int]);
                assert(s@.subrange(i as int, i + 2)[1] == s@[i + 1]);
            }
        }
    }
    if s[i] == '`' {
        if let Some(j) = find_one(s, i + 1, '`') {
            return Some((Segment::Code(string_from_range(s, i + 1, j)), j + 1));
        }
    }
    if s[i] == '*' && !(i + 1 < n && s[i + 1] == '*') {
        if let Some(j) = find_one(s, i + 1, '*') {
            return Some((Segment::Italic(string_from_range(s, i + 1, j)), j + 1));
        }
    }
    if s[i] == '_' {
        let before_is_boundary = i == 0 || !is_alphanumeric(s[i - 1]);
        if before_is_boundary {
            if let Some(j) = find_one(s, i + 1, '_') {
                let after_idx = j + 1;
                let after_is_boundary = after_idx >= n || !is_alphanumeric(s[after_idx]);
                if after_is_boundary {
                    return Some((Segment::Italic(string_from_range(s, i + 1, j)), after_idx));
                }
            }
        }
    }
    if s[i] == '#' {
        let te = tag_end_exec(s, i + 1);
        if te > i + 1 {
            return Some((Segment::Tag(string_from_range(s, i + 1, te)), te));
        }
    }
    None
}

/// The inline segments of a line given as characters.
pub fn parse_inline_chars(s: &[char]) -> (r: Vec<Segment>)
    ensures
        segs_view(r@) == inline_segments(s@),
{
    let mut segments: Vec<Segment> = Vec::new();
    let mut buf: Vec<char> = Vec::new();
    let mut i: usize = 0;
    while i < s.len()
        invariant
            i <= s@.len(),
            segs_view(segments@) + inline_from(s@, i as int, buf@) == inline_segments(s@),
        decreases s@.len() - i,
    {
        let ghost old_segs = segs_view(segments@);
        let ghost old_buf = buf@;
        match inline_rule_exec(s, i) {
            Some((seg, next)) => {
                proof {
                    lemma_inline_rule(s@, i as int);
                }
                if buf.len() > 0 {
                    segments.push(Segment::Plain(string_from_chars(buf.as_slice())));
                    buf = Vec::new();
                }
                segments.push(seg);
                assert(segs_view(segments@) =~= old_segs + flush(old_buf) + seq![seg@]);
                assert(buf@ =~= Seq::<char>::empty());
                assert(inline_from(s@, i as int, old_buf) == flush(old_buf) + seq![seg@]
                    + inline_from(s@, next as int, seq![]));
                assert(segs_view(segments@) + inline_from(s@, next as int, buf@) =~= old_segs + (
                flush(old_buf) + seq![seg@] + inline_from(s@, next as int, seq![])));
                i = next;
            },
            None => {
                buf.push(s[i]);
                i = i + 1;
            },
        }
    }
    if buf.len() > 0 {
        let ghost old_segs = segs_view(segments@);
        segments.push(Segment::Plain(string_from_chars(buf.as_slice())));
        assert(segs_view(segments@) =~= old_segs + flush(buf@));
    } else {
        assert(flush(buf@) =~= Seq::<SegmentView>::empty());
        assert(segs_view(segments@) + flush(buf@) =~= segs_view(segments@));
    }
    segments
}

/// Parses the inline Logseq syntax of one line of text into segments.
pub fn parse_inline(s: &str) -> (r: Vec<Segment>)
    ensures
        segs_view(r@) == inline_segments(s@),
{
    let chars = str_chars(s);
    parse_inline_chars(chars.as_slice())
}

// ---------------------------------------------------------------------------
// One raw line
// ---------------------------------------------------------------------------

/// The first index `>= i` of `s` that holds no white space, or `s.len()`.
pub open spec fn ws_end(s: Seq<char>, i: int) -> int
    decreases s.len() - i,
{
    if 0 <= i < s.len() && is_white_space(s[i]) {
        ws_end(s, i + 1)
    } else {
        i
    }
}

proof fn lemma_ws_end(s: Seq<char>, i: int)
    requires
        0 <= i <= s.len(),
    ensures
        i <= ws_end(s, i) <= s.len(),
        forall|m: int| i <= m < ws_end(s, i) ==> is_white_space(s[m]),
        ws_end(s, i) < s.len() ==> !is_white_space(s[ws_end(s, i)]),
    decreases s.len() - i,
{
    if i < s.len() && is_white_space(s[i]) {
        lemma_ws_end(s, i + 1);
    }
}

/// The outline depth of a line's leading white space: every tab is one
/// level (plus half the spaces counted since the previous tab), every two
/// remaining spaces are one level, and counting stops at the first
/// character that is neither.
pub open spec fn indent_from(ws: Seq<char>, i: int, indent: int, spaces: int) -> int
    decreases ws.len() - i,
{
    if i < 0 || i >= ws.len() {
        indent + spaces / 2
    } else if ws[i] == '\t' {
        indent_from(ws, i + 1, indent + 1 + spaces / 2, 0)
    } else if ws[i] == ' ' {
        indent_from(ws, i + 1, indent, spaces + 1)
    } else {
        indent + spaces / 2
    }
}

/// The outline depth of leading white space `ws`.
pub open spec fn indent_of(ws: Seq<char>) -> int {
    indent_from(ws, 0, 0, 0)
}

/// The outline depth of the first `len` characters of `raw`.
pub fn compute_indent(raw: &[char], len: usize) -> (r: usize)
    requires
        len <= raw@.len(),
    ensures
        r == indent_of(raw@.take(len as int)),
{
    let ghost ws = raw@.take(len as int);
    let mut indent: usize = 0;
    let mut space_count: usize = 0;
    let mut i: usize = 0;
    while i < len
        invariant
            i <= len <= raw@.len(),
            ws == raw@.take(len as int),
            indent + space_count <= i,
            indent_of(ws) == indent_from(ws, i as int, indent as int, space_count as int),
        decreases len - i,
    {
        let c = raw[i];
        if c == '\t' {
            indent = indent + 1 + space_count / 2;
            space_count = 0;
        } else if c == ' ' {
            space_count = space_count + 1;
        } else {
            return indent + space_count / 2;
        }
        i = i + 1;
    }
    indent + space_count / 2
}

/// The prefix a task keyword is written with: the keyword and one space.
pub open spec fn task_prefix(t: TaskState) -> Seq<char> {
    task_keyword(t).push(' ')
}

/// The task keyword written at index `k` of `raw`, if any (tried in the
/// order TODO, DONE, LATER, NOW, WAITING, CANCELLED).
pub open spec fn task_at(raw: Seq<char>, k: int) -> Option<TaskState> {
    if matches_at(raw, k, task_prefix(TaskState::Todo)) {
        Some(TaskState::Todo)
    } else if matches_at(raw, k, task_prefix(TaskState::Done)) {
        Some(TaskState::Done)
    } else if matches_at(raw, k, task_prefix(TaskState::Later)) {
        Some(TaskState::Later)
    } else if matches_at(raw, k, task_prefix(TaskState::Now)) {
        Some(TaskState::Now)
    } else if matches_at(raw, k, task_prefix(TaskState::Waiting)) {
        Some(TaskState::Waiting)
    } else if matches_at(raw, k, task_prefix(TaskState::Cancelled)) {
        Some(TaskState::Cancelled)
    } else {
        None
    }
}

/// Where the text after a task keyword (if any) at index `k` begins.
pub open spec fn after_task(raw: Seq<char>, k: int) -> int {
    match task_at(raw, k) {
        Some(t) => k + task_prefix(t).len(),
        None => k,
    }
}

fn matches_task(raw: &[char], k: usize, t: TaskState) -> (r: bool)
    requires
        k <= raw@.len(),
    ensures
        r == matches_at(raw@, k as int, task_prefix(t)),
{
    let len = raw.len();
    let kw = t.keyword();
    let kwc = str_chars(kw);
    let n = kwc.len();
    if len - k < n + 1 {
        return false;
    }
    let mut m: usize = 0;
    while m < n
        invariant
            kwc@ == task_keyword(t),
            n == kwc@.len(),
            k + n + 1 <= raw@.len(),
            len == raw@.len(),
            m <= n,
            forall|q: int| 0 <= q < m ==> raw@[k + q] == task_prefix(t)[q],
        decreases n - m,
    {
        if raw[k + m] != kwc[m] {
            assert(raw@.subrange(k as int, k + n + 1)[m as int] != task_prefix(t)[m as int]);
            return false;
        }
        m = m + 1;
    }
    if raw[k + n] != ' ' {
        assert(raw@.subrange(k as int, k + n + 1)[n as int] != task_prefix(t)[n as int]);
        return false;
    }
    assert(raw@.subrange(k as int, k + n + 1) =~= task_prefix(t));
    true
}

/// Executable `task_at`, with the index after the keyword.
fn extract_task_at(raw: &[char], k: usize) -> (r: (Option<TaskState>, usize))
    requires
        k <= raw@.len(),
    ensures
        r.0 == task_at(raw@, k as int),
        r.1 == after_task(raw@, k as int),
        r.1 <= raw@.len(),
{
    let len = raw.len();
    if matches_task(raw, k, TaskState::Todo) {
        return (Some(TaskState::Todo), k + 5);
    }
    if matches_task(raw, k, TaskState::Done) {
        return (Some(TaskState::Done), k + 5);
    }
    if matches_task(raw, k, TaskState::Later) {
        return (Some(TaskState::Later), k + 6);
    }
    if matches_task(raw, k, TaskState::Now) {
        return (Some(TaskState::Now), k + 4);
    }
    if matches_task(raw, k, TaskState::Waiting) {
        return (Some(TaskState::Waiting), k + 8);
    }
    if matches_task(raw, k, TaskState::Cancelled) {
        return (Some(TaskState::Cancelled), k + 10);
    }
    (None, k)
}

/// Splits a leading task keyword off `s`: the task state, and the text
/// after the keyword and its space (all of `s` when there is none).
pub fn extract_task_state(s: &str) -> (r: (Option<TaskState>, String))
    ensures
        r.0 == task_at(s@, 0),
        r.1@ == s@.skip(after_task(s@, 0)),
{
    let chars = str_chars(s);
    let (task, k) = extract_task_at(chars.as_slice(), 0);
    (task, string_from_range(chars.as_slice(), k, chars.len()))
}

/// Where a line's text after its bullet marker begins: past `"- "`, at the
/// end for a line that is just `"-"`, otherwise where its leading white
/// space ends.
pub open spec fn rest_start(raw: Seq<char>) -> int {
    let lead = ws_end(raw, 0);
    if matches_at(raw, lead, seq!['-', ' ']) {
        lead + 2
    } else if raw.len() == lead + 1 && raw[lead] == '-' {
        raw.len() as int
    } else {
        lead
    }
}

/// Whether a line is a bullet (`"- "` or a lone `"-"` after its indent).
pub open spec fn is_bullet_line(raw: Seq<char>) -> bool {
    let lead = ws_end(raw, 0);
    matches_at(raw, lead, seq!['-', ' ']) || (raw.len() == lead + 1 && raw[lead] == '-')
}

/// A fence `"```"` written at index `k`.
pub open spec fn fence_at(raw: Seq<char>, k: int) -> bool {
    matches_at(raw, k, seq!['`', '`', '`'])
}

/// A line that opens a fenced code block: its text after the bullet marker
/// starts with a fence.
pub open spec fn opens_fence(raw: Seq<char>) -> bool {
    fence_at(raw, rest_start(raw))
}

/// A line that closes a fenced code block: it starts with a fence once its
/// leading white space is skipped.
pub open spec fn closes_fence(raw: Seq<char>) -> bool {
    fence_at(raw, ws_end(raw, 0))
}

/// The first index `>= k` that holds no backtick, or `s.len()`.
pub open spec fn backticks_end(s: Seq<char>, k: int) -> int
    decreases s.len() - k,
{
    if 0 <= k < s.len() && s[k] == '`' {
        backticks_end(s, k + 1)
    } else {
        k
    }
}

/// The language tag of a fence opening line: what follows the run of
/// backticks.
pub open spec fn fence_lang(raw: Seq<char>) -> Seq<char> {
    raw.skip(backticks_end(raw, rest_start(raw)))
}

/// No space character in `raw[a..b]`.
pub open spec fn no_space(raw: Seq<char>, a: int, b: int) -> bool {
    forall|m: int| a <= m < b ==> raw[m] != ' '
}

/// The segments of a line's text starting at index `k`: a single
/// `key:: value` property when the first `":: "` follows a key without
/// spaces, otherwise its inline syntax.
pub open spec fn body_segments(raw: Seq<char>, k: int) -> Seq<SegmentView> {
    let p = find_from(raw, k, seq![':', ':', ' ']);
    if p is Some && no_space(raw, k, p->0) {
        seq![SegmentView::Property(raw.subrange(k, p->0), raw.subrange(p->0 + 3, raw.len() as int))]
    } else {
        inline_segments(raw.skip(k))
    }
}

/// The parsed form of raw line `idx` when it is not part of a code block:
/// a blank line has no indent, no bullet and no segments; otherwise the
/// indent, bullet, task keyword and body are read in that order.
pub open spec fn content_line(raw: Seq<char>, idx: usize) -> ParsedLineView {
    let lead = ws_end(raw, 0);
    if lead >= raw.len() {
        ParsedLineView {
            indent: 0,
            is_bullet: false,
            task: None,
            segments: seq![],
            src_start: idx,
            src_end: (idx + 1) as usize,
        }
    } else {
        let rs = rest_start(raw);
        ParsedLineView {
            indent: indent_of(raw.take(lead)) as usize,
            is_bullet: is_bullet_line(raw),
            task: task_at(raw, rs),
            segments: body_segments(raw, after_task(raw, rs)),
            src_start: idx,
            src_end: (idx + 1) as usize,
        }
    }
}

fn ws_end_exec(raw: &[char], i: usize) -> (r: usize)
    requires
        i <= raw@.len(),
    ensures
        r == ws_end(raw@, i as int),
        i <= r <= raw@.len(),
{
    proof {
        lemma_ws_end(raw@, i as int);
    }
    let mut j: usize = i;
    while j < raw.len() && is_whitespace(raw[j])
        invariant
            i <= j <= raw@.len(),
            ws_end(raw@, i as int) == ws_end(raw@, j as int),
        decreases raw@.len() - j,
    {
        j = j + 1;
    }
    j
}

fn rest_start_exec(raw: &[char]) -> (r: (usize, usize, bool))
    ensures
        r.0 == ws_end(raw@, 0),
        r.1 == rest_start(raw@),
        r.2 == is_bullet_line(raw@),
        r.0 <= r.1 <= raw@.len(),
{
    let lead = ws_end_exec(raw, 0);
    let n = raw.len();
    let dash_space = n - lead >= 2 && raw[lead] == '-' && raw[lead + 1] == ' ';
    proof {
        if n - lead >= 2 {
            assert(raw@.subrange(lead as int, lead + 2)[0] == raw@[lead as int]);
            assert(raw@.subrange(lead as int, lead + 2)[1] == raw@[lead + 1]);
            if dash_space {
                assert(raw@.subrange(lead as int, lead + 2) =~= seq!['-', ' ']);
            }
        }
    }
    assert(dash_space == matches_at(raw@, lead as int, seq!['-', ' ']));
    if dash_space {
        (lead, lead + 2, true)
    } else if n - lead == 1 && raw[lead] == '-' {
        (lead, n, true)
    } else {
        (lead, lead, false)
    }
}

fn fence_at_exec(raw: &[char], k: usize) -> (r: bool)
    requires
        k <= raw@.len(),
    ensures
        r == fence_at(raw@, k as int),
{
    if raw.len() - k < 3 {
        return false;
    }
    let r = raw[k] == '`' && raw[k + 1] == '`' && raw[k + 2] == '`';
    proof {
        let sub = raw@.subrange(k as int, k + 3);
        assert(sub[0] == raw@[k as int] && sub[1] == raw@[k + 1] && sub[2] == raw@[k + 2]);
        if r {
            assert(sub =~= seq!['`', '`', '`']);
        } else {
            assert(sub[0] != seq!['`', '`', '`'][0] || sub[1] != seq!['`', '`', '`'][1] || sub[2]
                != seq!['`', '`', '`'][2]);
        }
    }
    r
}

fn body_segments_exec(raw: &[char], k: usize) -> (r: Vec<Segment>)
    requires
        k <= raw@.len(),
    ensures
        segs_view(r@) == body_segments(raw@, k as int),
{
    let n = raw.len();
    let mut p: usize = k;
    let mut found = false;
    while p < n && !found
        invariant
            k <= p <= n,
            n == raw@.len(),
            found ==> p + 3 <= n && raw@.subrange(p as int, p + 3) == seq![':', ':', ' '],
            find_from(raw@, k as int, seq![':', ':', ' ']) == find_from(
                raw@,
                p as int,
                seq![':', ':', ' '],
            ),
        decreases n - p + (if found { 0int } else { 1int }),
    {
        if n - p >= 3 && raw[p] == ':' && raw[p + 1] == ':' && raw[p + 2] == ' ' {
            assert(raw@.subrange(p as int, p + 3) =~= seq![':', ':', ' ']);
            found = true;
        } else {
            proof {
                if n - p >= 3 {
                    let sub = raw@.subrange(p as int, p + 3);
                    assert(sub[0] == raw@[p as int] && sub[1] == raw@[p + 1] && sub[2] == raw@[p
                        + 2]);
                    assert(sub[0] != seq![':', ':', ' '][0] || sub[1] != seq![':', ':', ' '][1]
                        || sub[2] != seq![':', ':', ' '][2]);
                }
            }
            p = p + 1;
        }
    }
    if found {
        assert(find_from(raw@, p as int, seq![':', ':', ' ']) == Some(p as int));
        let mut m: usize = k;
        while m < p && raw[m] != ' '
            invariant
                k <= m <= p,
                p < n,
                n == raw@.len(),
                no_space(raw@, k as int, m as int),
            decreases p - m,
        {
            m = m + 1;
        }
        if m < p {
            assert(!no_space(raw@, k as int, p as int)) by {
                assert(raw@[m as int] == ' ');
            }
        }
        if m == p {
            let mut v: Vec<Segment> = Vec::new();
            v.push(
                Segment::Property(string_from_range(raw, k, p), string_from_range(raw, p + 3, n)),
            );
            assert(segs_view(v@) =~= body_segments(raw@, k as int));
            return v;
        }
    } else {
        proof {
            if k + 3 > n {
                assert(find_from(raw@, k as int, seq![':', ':', ' ']) is None);
            }
        }
        assert(find_from(raw@, p as int, seq![':', ':', ' ']) is None);
    }
    let mut rest: Vec<char> = Vec::new();
    let mut q: usize = k;
    while q < n
        invariant
            k <= q <= n,
            n == raw@.len(),
            rest@ == raw@.subrange(k as int, q as int),
        decreases n - q,
    {
        rest.push(raw[q]);
        q = q + 1;
        assert(rest@ =~= raw@.subrange(k as int, q as int));
    }
    assert(rest@ =~= raw@.skip(k as int));
    parse_inline_chars(rest.as_slice())
}

/// Parses raw line `idx` that is not part of a fenced code block.
fn parse_content_line(raw: &[char], idx: usize) -> (r: ParsedLine)
    requires
        idx < usize::MAX,
    ensures
        r@ == content_line(raw@, idx),
{
    let (lead, rs, is_bullet) = rest_start_exec(raw);
    if lead >= raw.len() {
        let segments: Vec<Segment> = Vec::new();
        assert(segs_view(segments@) =~= Seq::<SegmentView>::empty());
        return ParsedLine {
            indent: 0,
            is_bullet: false,
            task: None,
            segments,
            src_start: idx,
            src_end: idx + 1,
        };
    }
    let indent = compute_indent(raw, lead);
    let (task, k) = extract_task_at(raw, rs);
    let segments = body_segments_exec(raw, k);
    ParsedLine { indent, is_bullet, task, segments, src_start: idx, src_end: idx + 1 }
}

// ---------------------------------------------------------------------------
// Whole files
// ---------------------------------------------------------------------------

/// `parts` joined with `sep` between consecutive parts (`[T]::join`).
pub open spec fn join_with(parts: Seq<Seq<char>>, sep: Seq<char>) -> Seq<char>
    decreases parts.len(),
{
    if parts.len() == 0 {
        seq![]
    } else if parts.len() == 1 {
        parts[0]
    } else {
        join_with(parts.drop_last(), sep) + sep + parts.last()
    }
}

/// A fenced code block that has been opened and not yet closed.
pub struct CodeFold {
    pub lang: Seq<char>,
    pub buf: Seq<Seq<char>>,
    pub start: usize,
    pub indent: usize,
    pub is_bullet: bool,
    pub ws: Seq<char>,
}

/// The text a folded code block displays: the fence with its language, the
/// captured lines, and a closing fence, one per line.
pub open spec fn code_text(lang: Seq<char>, buf: Seq<Seq<char>>) -> Seq<char> {
    seq!['`', '`', '`'] + lang + seq!['\n'] + join_with(buf, seq!['\n']) + seq!['\n', '`', '`', '`']
}

/// The single parsed line a code block folds into, ending before raw line
/// `end`: it keeps the opening line's indent and bullet.
pub open spec fn folded(f: CodeFold, end: usize) -> ParsedLineView {
    ParsedLineView {
        indent: f.indent,
        is_bullet: f.is_bullet,
        task: None,
        segments: seq![SegmentView::Code(code_text(f.lang, f.buf))],
        src_start: f.start,
        src_end: end,
    }
}

/// A captured code line: the opening line's leading white space (its
/// outline nesting) stripped when present, and every tab made a space.
pub open spec fn code_line(raw: Seq<char>, ws: Seq<char>) -> Seq<char> {
    let stripped = if matches_at(raw, 0, ws) {
        raw.skip(ws.len() as int)
    } else {
        raw
    };
    stripped.map_values(|c: char| if c == '\t' { ' ' } else { c })
}

/// The code block that raw line `idx` opens.
pub open spec fn open_fold(raw: Seq<char>, idx: usize) -> CodeFold {
    let lead = ws_end(raw, 0);
    CodeFold {
        lang: fence_lang(raw),
        buf: seq![],
        start: idx,
        indent: indent_of(raw.take(lead)) as usize,
        is_bullet: is_bullet_line(raw),
        ws: raw.take(lead),
    }
}

/// The parsed lines of raw lines `lines[i..]`, `open` being the code block
/// still open before line `i`. Inside a block every line is captured until
/// a closing fence, which ends the fold; a block left open at the end of the
/// file is kept when it captured at least one line.
pub open spec fn parse_from(lines: Seq<Seq<char>>, i: int, open: Option<CodeFold>) -> Seq<
    ParsedLineView,
>
    decreases lines.len() - i,
{
    if i < 0 || i >= lines.len() {
        match open {
            Some(f) => if f.buf.len() > 0 {
                seq![folded(f, (f.start + 1 + f.buf.len()) as usize)]
            } else {
                seq![]
            },
            None => seq![],
        }
    } else {
        let raw = lines[i];
        match open {
            Some(f) => if closes_fence(raw) {
                seq![folded(f, (i + 1) as usize)] + parse_from(lines, i + 1, None)
            } else {
                parse_from(
                    lines,
                    i + 1,
                    Some(CodeFold { buf: f.buf.push(code_line(raw, f.ws)), ..f }),
                )
            },
            None => if opens_fence(raw) {
                parse_from(lines, i + 1, Some(open_fold(raw, i as usize)))
            } else {
                seq![content_line(raw, i as usize)] + parse_from(lines, i + 1, None)
            },
        }
    }
}

/// The parsed lines of a whole file.
pub open spec fn parsed_file(content: Seq<char>) -> Seq<ParsedLineView> {
    parse_from(lines_of(content), 0, None)
}

/// The lines' raw-line ranges cover `[a, b)` in order: each non-empty,
/// each starting where the previous one ended.
pub open spec fn tiles(ls: Seq<ParsedLineView>, a: int, b: int) -> bool {
    if ls.len() == 0 {
        a == b
    } else {
        &&& ls[0].src_start == a
        &&& ls.last().src_end == b
        &&& forall|k: int| 0 <= k < ls.len() ==> #[trigger] ls[k].src_start < ls[k].src_end
        &&& forall|k: int|
            0 <= k < ls.len() - 1 ==> #[trigger] ls[k].src_end == ls[k + 1].src_start
    }
}

proof fn lemma_tiles_cons(x: ParsedLineView, rest: Seq<ParsedLineView>, m: int)
    requires
        x.src_start < x.src_end,
        tiles(rest, x.src_end as int, m),
    ensures
        tiles(seq![x] + rest, x.src_start as int, m),
{
    let ls = seq![x] + rest;
    assert(ls[0] == x);
    if rest.len() > 0 {
        assert(ls.last() == rest.last());
        assert forall|k: int| 0 <= k < ls.len() implies #[trigger] ls[k].src_start < ls[k].src_end by {
            if k > 0 {
                assert(ls[k] == rest[k - 1]);
            }
        }
        assert forall|k: int| 0 <= k < ls.len() - 1 implies #[trigger] ls[k].src_end == ls[k
            + 1].src_start by {
            assert(ls[k + 1] == rest[k]);
            if k > 0 {
                assert(ls[k] == rest[k - 1]);
            }
        }
    } else {
        assert(ls.last() == x);
    }
}

/// `str::lines` yields at most one line per character.
pub proof fn lemma_lines_of_len(s: Seq<char>)
    ensures
        lines_of(s).len() <= s.len(),
    decreases s.len(),
{
    if s.len() > 0 {
        let p = newline_index(s);
        lemma_newline_index(s);
        if p < s.len() {
            lemma_lines_of_len(s.skip(p + 1));
        }
    }
}

/// The raw line the parse from line `i` starts covering: the start of the
/// open code block, if any.
pub open spec fn parse_start(i: int, open: Option<CodeFold>) -> int {
    match open {
        Some(f) => f.start as int,
        None => i,
    }
}

proof fn lemma_parse_from_tiles(lines: Seq<Seq<char>>, i: int, open: Option<CodeFold>) -> (m: int)
    requires
        0 <= i <= lines.len(),
        lines.len() < usize::MAX,
        open matches Some(f) ==> f.start + 1 + f.buf.len() == i && opens_fence(lines[f.start as int]),
    ensures
        tiles(parse_from(lines, i, open), parse_start(i, open), m),
        m == lines.len() || (m == lines.len() - 1 && opens_fence(lines[m])),
    decreases lines.len() - i,
{
    let n = lines.len() as int;
    let a = parse_start(i, open);
    if i >= n {
        match open {
            Some(f) => {
                if f.buf.len() > 0 {
                    let x = folded(f, (f.start + 1 + f.buf.len()) as usize);
                    assert(parse_from(lines, i, open) == seq![x]);
                    assert(tiles(seq![x], a, n));
                    n
                } else {
                    assert(tiles(parse_from(lines, i, open), a, n - 1));
                    n - 1
                }
            },
            None => {
                assert(tiles(parse_from(lines, i, open), a, n));
                n
            },
        }
    } else {
        let raw = lines[i];
        match open {
            Some(f) => {
                if closes_fence(raw) {
                    let m = lemma_parse_from_tiles(lines, i + 1, None);
                    lemma_tiles_cons(folded(f, (i + 1) as usize), parse_from(lines, i + 1, None), m);
                    assert(parse_from(lines, i, open) == seq![folded(f, (i + 1) as usize)]
                        + parse_from(lines, i + 1, None));
                    m
                } else {
                    let g = CodeFold { buf: f.buf.push(code_line(raw, f.ws)), ..f };
                    let m = lemma_parse_from_tiles(lines, i + 1, Some(g));
                    m
                }
            },
            None => {
                if opens_fence(raw) {
                    let g = open_fold(raw, i as usize);
                    let m = lemma_parse_from_tiles(lines, i + 1, Some(g));
                    m
                } else {
                    let m = lemma_parse_from_tiles(lines, i + 1, None);
                    lemma_tiles_cons(content_line(raw, i as usize), parse_from(lines, i + 1, None), m);
                    assert(parse_from(lines, i, open) == seq![content_line(raw, i as usize)]
                        + parse_from(lines, i + 1, None));
                    m
                }
            },
        }
    }
}

/// The parsed lines' raw-line ranges cover the file's raw lines in order
/// from the first: each one non-empty and starting where the previous one
/// ended, the last ending at the last raw line, except that a code fence
/// opened on the very last raw line, with nothing after it, makes no line.
pub proof fn lemma_parsed_file_spans(content: Seq<char>)
    requires
        content.len() < usize::MAX,
    ensures
        exists|m: int|
            #![trigger tiles(parsed_file(content), 0, m)]
            tiles(parsed_file(content), 0, m) && (m == lines_of(content).len() || (m
                == lines_of(content).len() - 1 && opens_fence(lines_of(content)[m]))),
{
    lemma_lines_of_len(content);
    let lines = lines_of(content);
    let m = lemma_parse_from_tiles(lines, 0, None);
    assert(tiles(parsed_file(content), 0, m));
}

/// A parsed line of raw lines `lines` either is one raw line parsed on its
/// own (spanning exactly that line), or starts at a raw line that opens a
/// code fence (a folded block).
pub open spec fn one_line_or_fold(lines: Seq<Seq<char>>, l: ParsedLineView) -> bool {
    &&& l.src_start < lines.len()
    &&& (opens_fence(lines[l.src_start as int]) || (l.src_end == l.src_start + 1 && l == content_line(
        lines[l.src_start as int],
        l.src_start,
    )))
}

proof fn lemma_parse_from_lines(lines: Seq<Seq<char>>, i: int, open: Option<CodeFold>)
    requires
        0 <= i,
        lines.len() < usize::MAX,
        open matches Some(f) ==> f.start < i && f.start < lines.len() && opens_fence(
            lines[f.start as int],
        ),
    ensures
        forall|k: int|
            0 <= k < parse_from(lines, i, open).len() ==> one_line_or_fold(
                lines,
                #[trigger] parse_from(lines, i, open)[k],
            ),
    decreases lines.len() - i,
{
    let out = parse_from(lines, i, open);
    if i >= lines.len() {
        if let Some(f) = open {
            if f.buf.len() > 0 {
                assert(out =~= seq![folded(f, (f.start + 1 + f.buf.len()) as usize)]);
                assert(one_line_or_fold(lines, out[0]));
            } else {
                assert(out.len() == 0);
            }
        }
    } else {
        let raw = lines[i];
        match open {
            Some(f) => if closes_fence(raw) {
                lemma_parse_from_lines(lines, i + 1, None);
                let rest = parse_from(lines, i + 1, None);
                assert forall|k: int| 0 <= k < out.len() implies one_line_or_fold(
                    lines,
                    #[trigger] out[k],
                ) by {
                    if k > 0 {
                        assert(out[k] == rest[k - 1]);
                    } else {
                        assert(out[0] == folded(f, (i + 1) as usize));
                    }
                }
            } else {
                let g = CodeFold { buf: f.buf.push(code_line(raw, f.ws)), ..f };
                lemma_parse_from_lines(lines, i + 1, Some(g));
                assert(out == parse_from(lines, i + 1, Some(g)));
            },
            None => if opens_fence(raw) {
                let g = open_fold(raw, i as usize);
                assert(g.start == i);
                lemma_parse_from_lines(lines, i + 1, Some(g));
                assert(out == parse_from(lines, i + 1, Some(g)));
            } else {
                lemma_parse_from_lines(lines, i + 1, None);
                let rest = parse_from(lines, i + 1, None);
                assert forall|k: int| 0 <= k < out.len() implies one_line_or_fold(
                    lines,
                    #[trigger] out[k],
                ) by {
                    if k > 0 {
                        assert(out[k] == rest[k - 1]);
                    } else {
                        assert(out[0] == content_line(raw, i as usize));
                    }
                }
            },
        }
    }
}

proof fn lemma_parse_from_fence_free(lines: Seq<Seq<char>>, i: int)
    requires
        0 <= i <= lines.len(),
        lines.len() < usize::MAX,
        forall|j: int| 0 <= j < lines.len() ==> !opens_fence(#[trigger] lines[j]),
    ensures
        parse_from(lines, i, None) == Seq::new(
            (lines.len() - i) as nat,
            |k: int| content_line(lines[i + k], (i + k) as usize),
        ),
    decreases lines.len() - i,
{
    let want = Seq::new((lines.len() - i) as nat, |k: int| content_line(lines[i + k], (i + k) as usize));
    if i < lines.len() {
        lemma_parse_from_fence_free(lines, i + 1);
        assert(!opens_fence(lines[i]));
        let rest = Seq::new(
            (lines.len() - (i + 1)) as nat,
            |k: int| content_line(lines[i + 1 + k], (i + 1 + k) as usize),
        );
        assert(want =~= seq![content_line(lines[i], i as usize)] + rest);
    } else {
        assert(want =~= Seq::<ParsedLineView>::empty());
    }
}

/// Outside folded code blocks a parsed line is exactly one raw line: every
/// line of `parse_file` that does not start at an opening fence spans
/// `src_end == src_start + 1` and is that raw line parsed on its own. A
/// file without code fences gives one parsed line per raw line, the `i`th
/// spanning raw line `i`.
pub proof fn lemma_parsed_file_lines(content: Seq<char>)
    requires
        content.len() < usize::MAX,
    ensures
        forall|k: int|
            0 <= k < parsed_file(content).len() ==> one_line_or_fold(
                lines_of(content),
                #[trigger] parsed_file(content)[k],
            ),
        (forall|j: int|
            0 <= j < lines_of(content).len() ==> !opens_fence(#[trigger] lines_of(content)[j]))
            ==> parsed_file(content) == Seq::new(
            lines_of(content).len(),
            |k: int| content_line(lines_of(content)[k], k as usize),
        ),
{
    lemma_lines_of_len(content);
    let lines = lines_of(content);
    lemma_parse_from_lines(lines, 0, None);
    if forall|j: int| 0 <= j < lines.len() ==> !opens_fence(#[trigger] lines[j]) {
        lemma_parse_from_fence_free(lines, 0);
        assert(Seq::new((lines.len() - 0) as nat, |k: int| content_line(lines[0 + k], (0 + k) as usize))
            =~= Seq::new(lines.len(), |k: int| content_line(lines[k], k as usize)));
    }
}

fn normalize_code_line(raw: &[char], ws: &[char]) -> (r: Vec<char>)
    ensures
        r@ == code_line(raw@, ws@),
{
    let n = raw.len();
    let mut start: usize = 0;
    if ws.len() <= n {
        let mut k: usize = 0;
        while k < ws.len() && raw[k] == ws[k]
            invariant
                k <= ws@.len() <= n,
                n == raw@.len(),
                forall|q: int| 0 <= q < k ==> raw@[q] == ws@[q],
            decreases ws@.len() - k,
        {
            k = k + 1;
        }
        if k == ws.len() {
            assert(raw@.subrange(0, ws@.len() as int) =~= ws@);
            start = k;
        } else {
            assert(raw@.subrange(0, ws@.len() as int)[k as int] != ws@[k as int]);
        }
    }
    let ghost stripped = raw@.skip(start as int);
    assert(stripped == if matches_at(raw@, 0, ws@) {
        raw@.skip(ws@.len() as int)
    } else {
        raw@
    }) by {
        if start == 0 {
            assert(raw@.skip(0) =~= raw@);
        }
    }
    let mut out: Vec<char> = Vec::new();
    let mut q: usize = start;
    while q < n
        invariant
            start <= q <= n,
            n == raw@.len(),
            stripped == raw@.skip(start as int),
            out@ == stripped.take(q - start).map_values(
                |c: char|
                    if c == '\t' {
                        ' '
                    } else {
                        c
                    },
            ),
        decreases n - q,
    {
        let c = raw[q];
        if c == '\t' {
            out.push(' ');
        } else {
            out.push(c);
        }
        q = q + 1;
        assert(out@ =~= stripped.take(q - start).map_values(
            |c: char|
                if c == '\t' {
                    ' '
                } else {
                    c
                },
        ));
    }
    assert(stripped.take(n - start) =~= stripped);
    out
}

proof fn lemma_join_push(parts: Seq<Seq<char>>, x: Seq<char>, sep: Seq<char>)
    ensures
        join_with(parts.push(x), sep) == if parts.len() == 0 {
            x
        } else {
            join_with(parts, sep) + sep + x
        },
{
    assert(parts.push(x).drop_last() =~= parts);
}

fn code_string(lang: &[char], buf: &Vec<Vec<char>>) -> (r: String)
    ensures
        r@ == code_text(lang@, buf@.map_values(|l: Vec<char>| l@)),
{
    let ghost parts = buf@.map_values(|l: Vec<char>| l@);
    let mut s = String::new();
    crate::text::push_chars(&mut s, ['`', '`', '`'].as_slice());
    crate::text::push_chars(&mut s, lang);
    crate::text::string_push(&mut s, '\n');
    let ghost head = s@;
    assert(head =~= seq!['`', '`', '`'] + lang@ + seq!['\n']);
    let mut i: usize = 0;
    while i < buf.len()
        invariant
            i <= buf@.len(),
            parts == buf@.map_values(|l: Vec<char>| l@),
            s@ == head + join_with(parts.take(i as int), seq!['\n']),
        decreases buf@.len() - i,
    {
        proof {
            lemma_join_push(parts.take(i as int), parts[i as int], seq!['\n']);
            assert(parts.take(i + 1) =~= parts.take(i as int).push(parts[i as int]));
        }
        if i > 0 {
            crate::text::string_push(&mut s, '\n');
        }
        crate::text::push_chars(&mut s, buf[i].as_slice());
        i = i + 1;
    }
    assert(parts.take(buf@.len() as int) =~= parts);
    crate::text::push_chars(&mut s, ['\n', '`', '`', '`'].as_slice());
    s
}

/// The fold state of `parse_file`'s loop, in spec terms.
pub open spec fn fold_state(
    in_code_block: bool,
    lang: Seq<char>,
    buf: Seq<Vec<char>>,
    start: usize,
    indent: usize,
    is_bullet: bool,
    ws: Seq<char>,
) -> Option<CodeFold> {
    if in_code_block {
        Some(
            CodeFold {
                lang,
                buf: buf.map_values(|l: Vec<char>| l@),
                start,
                indent,
                is_bullet,
                ws,
            },
        )
    } else {
        None
    }
}

/// Parses a whole Logseq markdown file into display lines: one per raw
/// line, except that a fenced code block (opened by a line whose text after
/// its bullet starts with three backticks) folds into a single line.
pub fn parse_file(content: &str) -> (r: Vec<ParsedLine>)
    ensures
        lines_view(r@) == parsed_file(content@),
{
    let chars = str_chars(content);
    let raws = split_lines(chars.as_slice());
    let ghost lines = raws@.map_values(|l: Vec<char>| l@);
    let mut out: Vec<ParsedLine> = Vec::new();
    let mut in_code_block = false;
    let mut code_lang: Vec<char> = Vec::new();
    let mut code_buf: Vec<Vec<char>> = Vec::new();
    let mut code_block_start: usize = 0;
    let mut code_block_indent: usize = 0;
    let mut code_block_is_bullet = false;
    let mut code_block_leading_ws: Vec<char> = Vec::new();
    let mut raw_idx: usize = 0;
    assert(lines_view(out@) =~= Seq::<ParsedLineView>::empty());
    assert(lines_view(out@) + parse_from(lines, 0, None) =~= parse_from(lines, 0, None));
    while raw_idx < raws.len()
        invariant
            raw_idx <= raws@.len(),
            lines == raws@.map_values(|l: Vec<char>| l@),
            lines == lines_of(content@),
            in_code_block ==> code_block_start + 1 + code_buf@.len() <= raw_idx,
            lines_view(out@) + parse_from(
                lines,
                raw_idx as int,
                fold_state(
                    in_code_block,
                    code_lang@,
                    code_buf@,
                    code_block_start,
                    code_block_indent,
                    code_block_is_bullet,
                    code_block_leading_ws@,
                ),
            ) == parsed_file(content@),
        decreases raws@.len() - raw_idx,
    {
        let raw = raws[raw_idx].as_slice();
        let ghost before = lines_view(out@);
        let ghost st = fold_state(
            in_code_block,
            code_lang@,
            code_buf@,
            code_block_start,
            code_block_indent,
            code_block_is_bullet,
            code_block_leading_ws@,
        );
        assert(raw@ == lines[raw_idx as int]);
        let (lead, rs, is_bullet) = rest_start_exec(raw);
        if in_code_block {
            if fence_at_exec(raw, lead) {
                let code = code_string(code_lang.as_slice(), &code_buf);
                let mut segments: Vec<Segment> = Vec::new();
                segments.push(Segment::Code(code));
                out.push(
                    ParsedLine {
                        indent: code_block_indent,
                        is_bullet: code_block_is_bullet,
                        task: None,
                        segments,
                        src_start: code_block_start,
                        src_end: raw_idx + 1,
                    },
                );
                code_buf = Vec::new();
                in_code_block = false;
                proof {
                    assert(segs_view(segments@) =~= seq![
                        SegmentView::Code(code_text(code_lang@, st->0.buf)),
                    ]);
                    assert(lines_view(out@) =~= before.push(folded(st->0, (raw_idx + 1) as usize)));
                    assert(lines_view(out@) + parse_from(lines, raw_idx + 1, None) =~= before + (
                    seq![folded(st->0, (raw_idx + 1) as usize)] + parse_from(
                        lines,
                        raw_idx + 1,
                        None,
                    )));
                }
            } else {
                let line = normalize_code_line(raw, code_block_leading_ws.as_slice());
                let ghost old_buf = code_buf@;
                code_buf.push(line);
                proof {
                    assert(code_buf@.map_values(|l: Vec<char>| l@) =~= old_buf.map_values(
                        |l: Vec<char>| l@,
                    ).push(code_line(raw@, code_block_leading_ws@)));
                }
            }
        } else {
            if fence_at_exec(raw, rs) {
                let mut b = rs;
                while b < raw.len() && raw[b] == '`'
                    invariant
                        rs <= b <= raw@.len(),
                        backticks_end(raw@, rs as int) == backticks_end(raw@, b as int),
                    decreases raw@.len() - b,
                {
                    b = b + 1;
                }
                let mut lang: Vec<char> = Vec::new();
                let mut q = b;
                while q < raw.len()
                    invariant
                        b <= q <= raw@.len(),
                        lang@ == raw@.subrange(b as int, q as int),
                    decreases raw@.len() - q,
                {
                    lang.push(raw[q]);
                    q = q + 1;
                    assert(lang@ =~= raw@.subrange(b as int, q as int));
                }
                let mut ws: Vec<char> = Vec::new();
                let mut w: usize = 0;
                while w < lead
                    invariant
                        w <= lead <= raw@.len(),
                        ws@ == raw@.take(w as int),
                    decreases lead - w,
                {
                    ws.push(raw[w]);
                    w = w + 1;
                    assert(ws@ =~= raw@.take(w as int));
                }
                code_lang = lang;
                in_code_block = true;
                code_block_start = raw_idx;
                code_block_indent = compute_indent(raw, lead);
                code_block_is_bullet = is_bullet;
                code_block_leading_ws = ws;
                code_buf = Vec::new();
                proof {
                    assert(code_lang@ =~= fence_lang(raw@));
                    assert(code_buf@.map_values(|l: Vec<char>| l@) =~= Seq::<Seq<char>>::empty());
                }
            } else {
                let line = parse_content_line(raw, raw_idx);
                out.push(line);
                proof {
                    assert(lines_view(out@) =~= before.push(content_line(raw@, raw_idx)));
                    assert(lines_view(out@) + parse_from(lines, raw_idx + 1, None) =~= before + (
                    seq![content_line(raw@, raw_idx)] + parse_from(lines, raw_idx + 1, None)));
                }
            }
        }
        raw_idx = raw_idx + 1;
    }
    if in_code_block && code_buf.len() > 0 {
        let ghost before = lines_view(out@);
        let ghost st = fold_state(
            in_code_block,
            code_lang@,
            code_buf@,
            code_block_start,
            code_block_indent,
            code_block_is_bullet,
            code_block_leading_ws@,
        );
        let code = code_string(code_lang.as_slice(), &code_buf);
        let src_end = code_block_start + 1 + code_buf.len();
        let mut segments: Vec<Segment> = Vec::new();
        segments.push(Segment::Code(code));
        out.push(
            ParsedLine {
                indent: code_block_indent,
                is_bullet: code_block_is_bullet,
                task: None,
                segments,
                src_start: code_block_start,
                src_end,
            },
        );
        proof {
            assert(segs_view(segments@) =~= seq![
                SegmentView::Code(code_text(code_lang@, st->0.buf)),
            ]);
            assert(lines_view(out@) =~= before + seq![
                folded(st->0, (st->0.start + 1 + st->0.buf.len()) as usize),
            ]);
        }
    } else {
        proof {
            let st = fold_state(
                in_code_block,
                code_lang@,
                code_buf@,
                code_block_start,
                code_block_indent,
                code_block_is_bullet,
                code_block_leading_ws@,
            );
            assert(parse_from(lines, raw_idx as int, st) =~= Seq::<ParsedLineView>::empty());
            assert(lines_view(out@) + Seq::<ParsedLineView>::empty() =~= lines_view(out@));
        }
    }
    out
}

// ---------------------------------------------------------------------------
// Plain text and display text
// ---------------------------------------------------------------------------

/// The searchable text of a segment: its content, with a tag's `#` and a
/// property's `":: "` separator.
pub open spec fn segment_plain(s: SegmentView) -> Seq<char> {
    match s {
        SegmentView::Plain(x) => x,
        SegmentView::PageLink(x) => x,
        SegmentView::Tag(x) => seq!['#'] + x,
        SegmentView::Bold(x) => x,
        SegmentView::Italic(x) => x,
        SegmentView::Code(x) => x,
        SegmentView::BlockRef(x) => x,
        SegmentView::Property(k, v) => k + seq![':', ':', ' '] + v,
    }
}

/// The searchable texts of segments, concatenated.
pub open spec fn segments_plain(segs: Seq<SegmentView>) -> Seq<char>
    decreases segs.len(),
{
    if segs.len() == 0 {
        seq![]
    } else {
        segments_plain(segs.drop_last()) + segment_plain(segs.last())
    }
}

/// The searchable text of a line: its task keyword and a space, if it has
/// one, then the text of its segments without formatting.
pub open spec fn plain_text(l: ParsedLineView) -> Seq<char> {
    let head = match l.task {
        Some(t) => task_prefix(t),
        None => seq![],
    };
    head + segments_plain(l.segments)
}

fn push_str_chars(s: &mut String, x: &String)
    ensures
        final(s)@ == old(s)@ + x@,
{
    let v = str_chars(x.as_str());
    crate::text::push_chars(s, v.as_slice());
}

fn push_task_prefix(s: &mut String, t: TaskState)
    ensures
        final(s)@ == old(s)@ + task_prefix(t),
{
    let kw = str_chars(t.keyword());
    crate::text::push_chars(s, kw.as_slice());
    crate::text::string_push(s, ' ');
}

/// Extract plain text from a ParsedLine's segments for search purposes.
/// Concatenates the textual content of each segment, ignoring formatting.
/// If the line has a task state, the keyword (e.g., "TODO", "DONE") is
/// prepended.
pub fn line_to_plain_text(line: &ParsedLine) -> (r: String)
    ensures
        r@ == plain_text(line@),
{
    let mut text = String::new();
    if let Some(task) = line.task {
        push_task_prefix(&mut text, task);
    }
    let ghost head = text@;
    let ghost segs = line@.segments;
    let mut i: usize = 0;
    while i < line.segments.len()
        invariant
            i <= line.segments@.len(),
            segs == segs_view(line.segments@),
            text@ == head + segments_plain(segs.take(i as int)),
        decreases line.segments@.len() - i,
    {
        assert(segs.take(i + 1).drop_last() =~= segs.take(i as int));
        match &line.segments[i] {
            Segment::Plain(s) => push_str_chars(&mut text, s),
            Segment::PageLink(s) => push_str_chars(&mut text, s),
            Segment::Tag(s) => {
                crate::text::string_push(&mut text, '#');
                push_str_chars(&mut text, s);
            },
            Segment::Bold(s) => push_str_chars(&mut text, s),
            Segment::Italic(s) => push_str_chars(&mut text, s),
            Segment::Code(s) => push_str_chars(&mut text, s),
            Segment::BlockRef(s) => push_str_chars(&mut text, s),
            Segment::Property(key, val) => {
                push_str_chars(&mut text, key);
                crate::text::push_chars(&mut text, [':', ':', ' '].as_slice());
                push_str_chars(&mut text, val);
            },
        }
        i = i + 1;
        assert(text@ =~= head + segments_plain(segs.take(i as int)));
    }
    assert(segs.take(line.segments@.len() as int) =~= segs);
    text
}

/// What kind of thing a `DisplayFragment` is, e.g. for the renderer to pick
/// a style. Purely a label -- carries no styling itself.
#[derive(Debug, Clone, Copy, PartialEq, Eq, Structural)]
pub enum FragmentKind {
    Indent,
    Bullet,
    TaskLabel(TaskState),
    Plain,
    PageLink,
    Tag,
    Bold,
    Italic,
    Code,
    BlockRef,
    PropertyKey,
    PropertySeparator,
    PropertyValue,
}

/// One labeled piece of a `ParsedLine`'s displayed text, in render order.
#[derive(Debug, Clone, PartialEq)]
pub struct DisplayFragment {
    pub text: String,
    pub kind: FragmentKind,
}

/// A `DisplayFragment` with its text as a character sequence.
pub struct FragmentView {
    pub text: Seq<char>,
    pub kind: FragmentKind,
}

impl View for DisplayFragment {
    type V = FragmentView;

    open spec fn view(&self) -> FragmentView {
        FragmentView { text: self.text@, kind: self.kind }
    }
}

/// The views of a sequence of fragments.
pub open spec fn frags_view(v: Seq<DisplayFragment>) -> Seq<FragmentView> {
    v.map_values(|f: DisplayFragment| f@)
}

/// `n` spaces.
pub open spec fn spaces(n: nat) -> Seq<char> {
    Seq::new(n, |i: int| ' ')
}

/// The bullet marker of a line: a check mark for a done or cancelled task,
/// a circle for another task, a dot otherwise, each followed by a space.
pub open spec fn bullet_text(task: Option<TaskState>) -> Seq<char> {
    match task {
        Some(TaskState::Done) => seq!['\u{2713}', ' '],
        Some(TaskState::Cancelled) => seq!['\u{2713}', ' '],
        Some(_) => seq!['\u{25cb}', ' '],
        None => seq!['\u{2022}', ' '],
    }
}

/// How a segment is displayed: `[[link]]`, `#tag`, `((ref…))` showing the
/// reference's first eight characters, `key`/`":: "`/`value` for a
/// property, and the bare text for everything else.
pub open spec fn segment_fragments(s: SegmentView) -> Seq<FragmentView> {
    match s {
        SegmentView::Plain(x) => seq![FragmentView { text: x, kind: FragmentKind::Plain }],
        SegmentView::PageLink(x) => seq![
            FragmentView { text: seq!['[', '['] + x + seq![']', ']'], kind: FragmentKind::PageLink },
        ],
        SegmentView::Tag(x) => seq![FragmentView { text: seq!['#'] + x, kind: FragmentKind::Tag }],
        SegmentView::Bold(x) => seq![FragmentView { text: x, kind: FragmentKind::Bold }],
        SegmentView::Italic(x) => seq![FragmentView { text: x, kind: FragmentKind::Italic }],
        SegmentView::Code(x) => seq![FragmentView { text: x, kind: FragmentKind::Code }],
        SegmentView::BlockRef(x) => seq![
            FragmentView {
                text: seq!['(', '('] + (if x.len() <= 8 {
                    x
                } else {
                    x.take(8)
                }) + seq!['\u{2026}', ')', ')'],
                kind: FragmentKind::BlockRef,
            },
        ],
        SegmentView::Property(k, v) => seq![
            FragmentView { text: k, kind: FragmentKind::PropertyKey },
            FragmentView { text: seq![':', ':', ' '], kind: FragmentKind::PropertySeparator },
            FragmentView { text: v, kind: FragmentKind::PropertyValue },
        ],
    }
}

/// The fragments of a sequence of segments, in order.
pub open spec fn segments_fragments(segs: Seq<SegmentView>) -> Seq<FragmentView>
    decreases segs.len(),
{
    if segs.len() == 0 {
        seq![]
    } else {
        segments_fragments(segs.drop_last()) + segment_fragments(segs.last())
    }
}

/// The fragments a line displays as: its indent (two spaces per level),
/// its bullet marker, its task label, then its segments.
pub open spec fn display_fragments(l: ParsedLineView) -> Seq<FragmentView> {
    let indent = if l.indent > 0 {
        seq![FragmentView { text: spaces(2 * l.indent as nat), kind: FragmentKind::Indent }]
    } else {
        seq![]
    };
    let bullet = if l.is_bullet {
        seq![FragmentView { text: bullet_text(l.task), kind: FragmentKind::Bullet }]
    } else {
        seq![]
    };
    let label = match l.task {
        Some(t) => seq![FragmentView { text: task_prefix(t), kind: FragmentKind::TaskLabel(t) }],
        None => seq![],
    };
    indent + bullet + label + segments_fragments(l.segments)
}

fn fragment(text: String, kind: FragmentKind) -> (r: DisplayFragment)
    ensures
        r@ == (FragmentView { text: text@, kind }),
{
    DisplayFragment { text, kind }
}

fn string_of(v: &[char]) -> (r: String)
    ensures
        r@ == v@,
{
    string_from_chars(v)
}

/// Breaks a `ParsedLine` down into the exact sequence of text fragments it
/// displays as -- indent, bullet marker, task-state label, and segment
/// decorations (`[[page links]]`, `#tags`, `((block refs))`, `key:: val`
/// properties). This is the single place that text is built: the renderer
/// styles these fragments and `line_display_text` concatenates them.
pub fn line_display_fragments(line: &ParsedLine) -> (r: Vec<DisplayFragment>)
    ensures
        frags_view(r@) == display_fragments(line@),
{
    let mut fragments: Vec<DisplayFragment> = Vec::new();
    let ghost l = line@;
    if line.indent > 0 {
        let mut s = String::new();
        let mut k: usize = 0;
        while k < line.indent
            invariant
                k <= line.indent,
                s@ == spaces(2 * k as nat),
            decreases line.indent - k,
        {
            crate::text::string_push(&mut s, ' ');
            crate::text::string_push(&mut s, ' ');
            k = k + 1;
            assert(s@ =~= spaces(2 * k as nat));
        }
        fragments.push(fragment(s, FragmentKind::Indent));
    }
    if line.is_bullet {
        let text = match line.task {
            Some(TaskState::Done) => string_of(['\u{2713}', ' '].as_slice()),
            Some(TaskState::Cancelled) => string_of(['\u{2713}', ' '].as_slice()),
            Some(_) => string_of(['\u{25cb}', ' '].as_slice()),
            None => string_of(['\u{2022}', ' '].as_slice()),
        };
        assert(text@ =~= bullet_text(line.task));
        fragments.push(fragment(text, FragmentKind::Bullet));
    }
    if let Some(task) = line.task {
        let mut s = String::new();
        push_task_prefix(&mut s, task);
        fragments.push(fragment(s, FragmentKind::TaskLabel(task)));
    }
    let ghost head = frags_view(fragments@);
    assert(head =~= (if l.indent > 0 {
        seq![FragmentView { text: spaces(2 * l.indent as nat), kind: FragmentKind::Indent }]
    } else {
        seq![]
    }) + (if l.is_bullet {
        seq![FragmentView { text: bullet_text(l.task), kind: FragmentKind::Bullet }]
    } else {
        seq![]
    }) + (match l.task {
        Some(t) => seq![FragmentView { text: task_prefix(t), kind: FragmentKind::TaskLabel(t) }],
        None => seq![],
    }));
    let ghost segs = l.segments;
    let mut i: usize = 0;
    while i < line.segments.len()
        invariant
            i <= line.segments@.len(),
            segs == segs_view(line.segments@),
            frags_view(fragments@) == head + segments_fragments(segs.take(i as int)),
        decreases line.segments@.len() - i,
    {
        assert(segs.take(i + 1).drop_last() =~= segs.take(i as int));
        let ghost before = frags_view(fragments@);
        match &line.segments[i] {
            Segment::Plain(s) => fragments.push(fragment(s.clone(), FragmentKind::Plain)),
            Segment::PageLink(s) => {
                let mut t = String::new();
                crate::text::push_chars(&mut t, ['[', '['].as_slice());
                push_str_chars(&mut t, s);
                crate::text::push_chars(&mut t, [']', ']'].as_slice());
                fragments.push(fragment(t, FragmentKind::PageLink));
            },
            Segment::Tag(s) => {
                let mut t = String::new();
                crate::text::string_push(&mut t, '#');
                push_str_chars(&mut t, s);
                fragments.push(fragment(t, FragmentKind::Tag));
            },
            Segment::Bold(s) => fragments.push(fragment(s.clone(), FragmentKind::Bold)),
            Segment::Italic(s) => fragments.push(fragment(s.clone(), FragmentKind::Italic)),
            Segment::Code(s) => fragments.push(fragment(s.clone(), FragmentKind::Code)),
            Segment::BlockRef(s) => {
                let chars = str_chars(s.as_str());
                let n = if chars.len() <= 8 {
                    chars.len()
                } else {
                    8
                };
                let mut t = String::new();
                crate::text::push_chars(&mut t, ['(', '('].as_slice());
                let preview = string_from_range(chars.as_slice(), 0, n);
                push_str_chars(&mut t, &preview);
                crate::text::push_chars(&mut t, ['\u{2026}', ')', ')'].as_slice());
                assert(chars@.subrange(0, n as int) =~= (if chars@.len() <= 8 {
                    chars@
                } else {
                    chars@.take(8)
                }));
                fragments.push(fragment(t, FragmentKind::BlockRef));
            },
            Segment::Property(key, val) => {
                fragments.push(fragment(key.clone(), FragmentKind::PropertyKey));
                fragments.push(
                    fragment(string_of([':', ':', ' '].as_slice()), FragmentKind::PropertySeparator),
                );
                fragments.push(fragment(val.clone(), FragmentKind::PropertyValue));
            },
        }
        assert(frags_view(fragments@) =~= before + segment_fragments(segs[i as int]));
        i = i + 1;
        assert(frags_view(fragments@) =~= head + segments_fragments(segs.take(i as int)));
    }
    assert(segs.take(line.segments@.len() as int) =~= segs);
    fragments
}

/// The texts of fragments, concatenated.
pub open spec fn fragments_text(frags: Seq<FragmentView>) -> Seq<char>
    decreases frags.len(),
{
    if frags.len() == 0 {
        seq![]
    } else {
        fragments_text(frags.drop_last()) + frags.last().text
    }
}

proof fn lemma_fragments_text_concat(a: Seq<FragmentView>, b: Seq<FragmentView>)
    ensures
        fragments_text(a + b) == fragments_text(a) + fragments_text(b),
    decreases b.len(),
{
    if b.len() == 0 {
        assert(a + b =~= a);
        assert(fragments_text(a) + Seq::<char>::empty() =~= fragments_text(a));
    } else {
        lemma_fragments_text_concat(a, b.drop_last());
        assert((a + b).drop_last() =~= a + b.drop_last());
        assert((a + b).last() == b.last());
        assert(fragments_text(a) + fragments_text(b.drop_last()) + b.last().text =~= fragments_text(a)
            + (fragments_text(b.drop_last()) + b.last().text));
    }
}

proof fn lemma_fragments_text_one(f: FragmentView)
    ensures
        fragments_text(seq![f]) == f.text,
{
    assert(seq![f].drop_last() =~= Seq::<FragmentView>::empty());
    assert(fragments_text(Seq::<FragmentView>::empty()) == Seq::<char>::empty());
    assert(Seq::<char>::empty() + f.text =~= f.text);
}

/// How a bulleted line is marked: after its indentation (two spaces per
/// level), a check mark and a space when its task is done or cancelled, an
/// open circle and a space for any other task, a dot and a space without a
/// task; a line that is not a bullet shows no marker. The displayed text
/// starts with exactly that indentation and marker.
pub proof fn lemma_bullet_marker(l: ParsedLineView)
    ensures
        ({
            let frags = display_fragments(l);
            let at: int = if l.indent > 0 { 1 } else { 0 };
            let marker: Seq<char> = match l.task {
                Some(TaskState::Done) => seq!['\u{2713}', ' '],
                Some(TaskState::Cancelled) => seq!['\u{2713}', ' '],
                Some(_) => seq!['\u{25cb}', ' '],
                None => seq!['\u{2022}', ' '],
            };
            &&& l.is_bullet ==> frags.len() > at && frags[at].kind == FragmentKind::Bullet
                && frags[at].text == marker
            &&& l.is_bullet ==> display_text(l).take(2 * l.indent + 2) == Seq::new(
                (2 * l.indent) as nat,
                |i: int| ' ',
            ) + marker
            &&& !l.is_bullet ==> forall|k: int|
                0 <= k < frags.len() ==> #[trigger] frags[k].kind != FragmentKind::Bullet
        }),
{
    let indent = if l.indent > 0 {
        seq![FragmentView { text: spaces(2 * l.indent as nat), kind: FragmentKind::Indent }]
    } else {
        seq![]
    };
    let bullet = if l.is_bullet {
        seq![FragmentView { text: bullet_text(l.task), kind: FragmentKind::Bullet }]
    } else {
        seq![]
    };
    let label = match l.task {
        Some(t) => seq![FragmentView { text: task_prefix(t), kind: FragmentKind::TaskLabel(t) }],
        None => seq![],
    };
    let segs = segments_fragments(l.segments);
    let frags = display_fragments(l);
    assert(frags == indent + bullet + label + segs);
    if l.is_bullet {
        let head = indent + bullet;
        lemma_fragments_text_concat(head, label + segs);
        assert(frags =~= head + (label + segs));
        lemma_fragments_text_concat(indent, bullet);
        lemma_fragments_text_one(bullet[0]);
        let itext: Seq<char> = if l.indent > 0 {
            lemma_fragments_text_one(indent[0]);
            spaces(2 * l.indent as nat)
        } else {
            assert(fragments_text(indent) =~= Seq::<char>::empty());
            seq![]
        };
        assert(fragments_text(indent) == itext);
        assert(itext =~= Seq::new((2 * l.indent) as nat, |i: int| ' '));
        let ht = fragments_text(head);
        assert(ht.len() == 2 * l.indent + 2);
        assert(display_text(l) == ht + fragments_text(label + segs));
        assert(display_text(l).take(2 * l.indent + 2) =~= ht);
        assert(frags[if l.indent > 0 { 1int } else { 0int }] == bullet[0]);
    } else {
        assert forall|k: int| 0 <= k < frags.len() implies #[trigger] frags[k].kind
            != FragmentKind::Bullet by {
            if k < indent.len() {
                assert(frags[k] == indent[k]);
            } else if k < indent.len() + label.len() {
                assert(frags[k] == label[k - indent.len()]);
            } else {
                let j = k - indent.len() - label.len();
                assert(frags[k] == segs[j]);
                lemma_segments_fragments_kinds(l.segments);
            }
        }
    }
}

/// A task line shows its label right after the indentation and any bullet
/// marker: the task's keyword as written in Logseq and a space (`TODO `,
/// `DONE `, `LATER `, `NOW `, `WAITING `, `CANCELLED `).
pub proof fn lemma_task_label(l: ParsedLineView)
    requires
        l.task is Some,
    ensures
        ({
            let frags = display_fragments(l);
            let at: int = (if l.indent > 0 { 1int } else { 0int }) + (if l.is_bullet { 1int } else { 0int });
            let t = l.task->0;
            let label: Seq<char> = match t {
                TaskState::Todo => seq!['T', 'O', 'D', 'O', ' '],
                TaskState::Done => seq!['D', 'O', 'N', 'E', ' '],
                TaskState::Later => seq!['L', 'A', 'T', 'E', 'R', ' '],
                TaskState::Now => seq!['N', 'O', 'W', ' '],
                TaskState::Waiting => seq!['W', 'A', 'I', 'T', 'I', 'N', 'G', ' '],
                TaskState::Cancelled => seq!['C', 'A', 'N', 'C', 'E', 'L', 'L', 'E', 'D', ' '],
            };
            frags.len() > at && frags[at].kind == FragmentKind::TaskLabel(t) && frags[at].text == label
        }),
{
    let frags = display_fragments(l);
    let t = l.task->0;
    assert(task_prefix(t) =~= match t {
        TaskState::Todo => seq!['T', 'O', 'D', 'O', ' '],
        TaskState::Done => seq!['D', 'O', 'N', 'E', ' '],
        TaskState::Later => seq!['L', 'A', 'T', 'E', 'R', ' '],
        TaskState::Now => seq!['N', 'O', 'W', ' '],
        TaskState::Waiting => seq!['W', 'A', 'I', 'T', 'I', 'N', 'G', ' '],
        TaskState::Cancelled => seq!['C', 'A', 'N', 'C', 'E', 'L', 'L', 'E', 'D', ' '],
    });
}

/// A task is read from the text at `k` exactly when one of the six
/// keywords followed by a space is written there: `TODO `, `DONE `,
/// `LATER `, `NOW `, `WAITING ` or `CANCELLED `, giving that state.
pub proof fn lemma_task_at_keywords(raw: Seq<char>, k: int)
    ensures
        task_at(raw, k) == Some(TaskState::Todo) <==> matches_at(raw, k, seq!['T', 'O', 'D', 'O', ' ']),
        task_at(raw, k) == Some(TaskState::Done) <==> matches_at(raw, k, seq!['D', 'O', 'N', 'E', ' ']),
        task_at(raw, k) == Some(TaskState::Later) <==> matches_at(raw, k, seq!['L', 'A', 'T', 'E', 'R', ' ']),
        task_at(raw, k) == Some(TaskState::Now) <==> matches_at(raw, k, seq!['N', 'O', 'W', ' ']),
        task_at(raw, k) == Some(TaskState::Waiting) <==> matches_at(
            raw,
            k,
            seq!['W', 'A', 'I', 'T', 'I', 'N', 'G', ' '],
        ),
        task_at(raw, k) == Some(TaskState::Cancelled) <==> matches_at(
            raw,
            k,
            seq!['C', 'A', 'N', 'C', 'E', 'L', 'L', 'E', 'D', ' '],
        ),
{
    let ws: Seq<Seq<char>> = seq![
        seq!['T', 'O', 'D', 'O', ' '],
        seq!['D', 'O', 'N', 'E', ' '],
        seq!['L', 'A', 'T', 'E', 'R', ' '],
        seq!['N', 'O', 'W', ' '],
        seq!['W', 'A', 'I', 'T', 'I', 'N', 'G', ' '],
        seq!['C', 'A', 'N', 'C', 'E', 'L', 'L', 'E', 'D', ' '],
    ];
    assert(task_prefix(TaskState::Todo) =~= ws[0]);
    assert(task_prefix(TaskState::Done) =~= ws[1]);
    assert(task_prefix(TaskState::Later) =~= ws[2]);
    assert(task_prefix(TaskState::Now) =~= ws[3]);
    assert(task_prefix(TaskState::Waiting) =~= ws[4]);
    assert(task_prefix(TaskState::Cancelled) =~= ws[5]);
    // The keywords start with different letters, so at most one is written at `k`.
    assert forall|a: int, b: int| 0 <= a < b < 6 && matches_at(raw, k, #[trigger] ws[a]) implies !matches_at(
        raw,
        k,
        #[trigger] ws[b],
    ) by {
        assert(raw.subrange(k, k + ws[a].len())[0] == raw[k]);
        if matches_at(raw, k, ws[b]) {
            assert(raw.subrange(k, k + ws[b].len())[0] == raw[k]);
        }
    }
}

/// No segment displays as a bullet, an indent or a task label./// No segment displays as a bullet, an indent or a task label.
proof fn lemma_segments_fragments_kinds(segs: Seq<SegmentView>)
    ensures
        forall|k: int|
            0 <= k < segments_fragments(segs).len() ==> (#[trigger] segments_fragments(segs)[k]).kind
                != FragmentKind::Bullet,
    decreases segs.len(),
{
    if segs.len() > 0 {
        lemma_segments_fragments_kinds(segs.drop_last());
    }
}

/// The full text of a line exactly as it is displayed.
pub open spec fn display_text(l: ParsedLineView) -> Seq<char> {
    fragments_text(display_fragments(l))
}

/// The full text of a `ParsedLine` exactly as it's displayed (see
/// `line_display_fragments`), which is what `line_row_count` measures.
pub fn line_display_text(line: &ParsedLine) -> (r: String)
    ensures
        r@ == display_text(line@),
{
    let frags = line_display_fragments(line);
    let ghost fv = frags_view(frags@);
    let mut s = String::new();
    let mut i: usize = 0;
    while i < frags.len()
        invariant
            i <= frags@.len(),
            fv == frags_view(frags@),
            s@ == fragments_text(fv.take(i as int)),
        decreases frags@.len() - i,
    {
        assert(fv.take(i + 1).drop_last() =~= fv.take(i as int));
        push_str_chars(&mut s, &frags[i].text);
        i = i + 1;
    }
    assert(fv.take(frags@.len() as int) =~= fv);
    s
}

/// The number of wrapped terminal rows `line` needs at `width` columns:
/// the rows of its display text (see `wrap::row_count`).
pub fn line_row_count(line: &ParsedLine, width: usize) -> (r: usize)
    ensures
        r == crate::wrap::wrap_rows(display_text(line@), width as int).len(),
{
    let text = line_display_text(line);
    crate::wrap::row_count(text.as_str(), width)
}

// ---------------------------------------------------------------------------
// Splicing raw lines
// ---------------------------------------------------------------------------

/// The text contains a `"\r\n"` line ending.
pub open spec fn has_crlf(s: Seq<char>) -> bool {
    crate::text::contains_seq(s, seq!['\r', '\n'])
}

/// The line separator a file uses: `"\r\n"` when it contains one anywhere,
/// `"\n"` otherwise.
pub open spec fn line_sep(s: Seq<char>) -> Seq<char> {
    if has_crlf(s) {
        seq!['\r', '\n']
    } else {
        seq!['\n']
    }
}

/// The text ends with a line feed.
pub open spec fn ends_with_newline(s: Seq<char>) -> bool {
    s.len() > 0 && s.last() == '\n'
}

/// `raw_start` clamped to the number of lines.
pub open spec fn clamp_start(n: int, raw_start: int) -> int {
    if raw_start < n {
        raw_start
    } else {
        n
    }
}

/// `raw_end` clamped to `[clamp_start, n]`.
pub open spec fn clamp_end(n: int, raw_start: int, raw_end: int) -> int {
    let a = clamp_start(n, raw_start);
    if raw_end < a {
        a
    } else if raw_end > n {
        n
    } else {
        raw_end
    }
}

/// The lines of `original` with lines `[raw_start, raw_end)` (clamped into
/// range) replaced by the lines of `replacement`.
pub open spec fn spliced_lines(
    original: Seq<char>,
    raw_start: int,
    raw_end: int,
    replacement: Seq<char>,
) -> Seq<Seq<char>> {
    let ls = lines_of(original);
    let a = clamp_start(ls.len() as int, raw_start);
    let b = clamp_end(ls.len() as int, raw_start, raw_end);
    ls.take(a) + lines_of(replacement) + ls.skip(b)
}

/// `ls` without the empty lines at its end, down to a single line.
pub open spec fn trim_blank_tail(ls: Seq<Seq<char>>) -> Seq<Seq<char>>
    decreases ls.len(),
{
    if ls.len() >= 2 && ls.last().len() == 0 {
        trim_blank_tail(ls.drop_last())
    } else {
        ls
    }
}

/// The new file text after a splice: the spliced lines joined with the
/// original's line separator. When the original ends in a line feed, one
/// more separator follows; when it does not, blank lines at the end are
/// dropped so that the text does not end in one either.
pub open spec fn splice_text(
    original: Seq<char>,
    raw_start: int,
    raw_end: int,
    replacement: Seq<char>,
) -> Seq<char> {
    let parts = spliced_lines(original, raw_start, raw_end, replacement);
    if ends_with_newline(original) {
        join_with(parts, line_sep(original)) + line_sep(original)
    } else {
        join_with(trim_blank_tail(parts), line_sep(original))
    }
}

/// No character of `l` is a line feed.
pub open spec fn no_lf(l: Seq<char>) -> bool {
    forall|k: int| 0 <= k < l.len() ==> l[k] != '\n'
}

/// Every line in `ls` is free of line feeds.
pub open spec fn all_no_lf(ls: Seq<Seq<char>>) -> bool {
    forall|i: int| 0 <= i < ls.len() ==> #[trigger] no_lf(ls[i])
}

/// The lines of a text hold no line feeds.
pub proof fn lemma_lines_no_lf(s: Seq<char>)
    ensures
        all_no_lf(lines_of(s)),
    decreases s.len(),
{
    if s.len() > 0 {
        let p = newline_index(s);
        lemma_newline_index(s);
        if p < s.len() {
            lemma_lines_no_lf(s.skip(p + 1));
            let rest = lines_of(s.skip(p + 1));
            let all = seq![strip_cr(s.take(p))] + rest;
            assert forall|i: int| 0 <= i < all.len() implies #[trigger] no_lf(all[i]) by {
                if i > 0 {
                    assert(all[i] == rest[i - 1]);
                } else {
                    let l = strip_cr(s.take(p));
                    assert forall|k: int| 0 <= k < l.len() implies l[k] != '\n' by {
                        assert(l[k] == s[k]);
                    }
                }
            }
        } else {
            assert forall|i: int| 0 <= i < lines_of(s).len() implies #[trigger] no_lf(
                lines_of(s)[i],
            ) by {
                assert(lines_of(s)[i] == s);
            }
        }
    }
}

/// A join of line-feed-free lines with a separator that ends in a line
/// feed ends in a line feed exactly when there are at least two lines and
/// the last is empty.
pub proof fn lemma_join_ends_lf(q: Seq<Seq<char>>, sep: Seq<char>)
    requires
        all_no_lf(q),
        sep.len() > 0,
        sep.last() == '\n',
    ensures
        ends_with_newline(join_with(q, sep)) <==> (q.len() >= 2 && q.last().len() == 0),
        q.len() >= 2 ==> join_with(q, sep) == join_with(q.drop_last(), sep) + sep + q.last(),
{
    if q.len() == 1 {
        assert(no_lf(q[0]));
        if q[0].len() > 0 {
            assert(q[0][q[0].len() - 1] != '\n');
        }
    } else if q.len() >= 2 {
        let j = join_with(q.drop_last(), sep) + sep + q.last();
        assert(no_lf(q[q.len() - 1]));
        if q.last().len() > 0 {
            assert(j.last() == q.last().last());
        } else {
            assert(j =~= join_with(q.drop_last(), sep) + sep);
        }
    }
}

/// Trimming keeps a prefix of the lines and leaves no blank line at the
/// end of two or more.
pub proof fn lemma_trim_blank_tail(q: Seq<Seq<char>>)
    ensures
        trim_blank_tail(q).len() <= q.len(),
        trim_blank_tail(q) == q.take(trim_blank_tail(q).len() as int),
        !(trim_blank_tail(q).len() >= 2 && trim_blank_tail(q).last().len() == 0),
        q.len() > 0 ==> trim_blank_tail(q).len() > 0,
    decreases q.len(),
{
    if q.len() >= 2 && q.last().len() == 0 {
        lemma_trim_blank_tail(q.drop_last());
        let t = trim_blank_tail(q.drop_last());
        assert(q.drop_last().take(t.len() as int) =~= q.take(t.len() as int));
    } else {
        assert(q.take(q.len() as int) =~= q);
    }
}

/// A splice keeps the original's trailing-newline state: the new text ends
/// with a line feed exactly when the original does, whatever the
/// replacement and whichever lines were replaced.
pub proof fn lemma_splice_keeps_trailing_newline(
    original: Seq<char>,
    raw_start: int,
    raw_end: int,
    replacement: Seq<char>,
)
    requires
        0 <= raw_start,
        0 <= raw_end,
    ensures
        ends_with_newline(splice_text(original, raw_start, raw_end, replacement))
            == ends_with_newline(original),
{
    let parts = spliced_lines(original, raw_start, raw_end, replacement);
    let sep = line_sep(original);
    if ends_with_newline(original) {
        let t = join_with(parts, sep) + sep;
        assert(t.last() == sep.last());
    } else {
        lemma_lines_no_lf(original);
        lemma_lines_no_lf(replacement);
        lemma_spliced_no_lf(original, raw_start, raw_end, replacement);
        lemma_trim_blank_tail(parts);
        let t = trim_blank_tail(parts);
        assert forall|i: int| 0 <= i < t.len() implies #[trigger] no_lf(t[i]) by {
            assert(t[i] == parts[i]);
        }
        lemma_join_ends_lf(t, sep);
    }
}

/// The spliced lines hold no line feeds.
proof fn lemma_spliced_no_lf(original: Seq<char>, raw_start: int, raw_end: int, replacement: Seq<char>)
    requires
        0 <= raw_start,
        0 <= raw_end,
    ensures
        all_no_lf(spliced_lines(original, raw_start, raw_end, replacement)),
{
    let ls = lines_of(original);
    let rs = lines_of(replacement);
    lemma_lines_no_lf(original);
    lemma_lines_no_lf(replacement);
    let a = clamp_start(ls.len() as int, raw_start);
    let b = clamp_end(ls.len() as int, raw_start, raw_end);
    let parts = ls.take(a) + rs + ls.skip(b);
    assert forall|i: int| 0 <= i < parts.len() implies #[trigger] no_lf(parts[i]) by {
        if i < a {
            assert(parts[i] == ls[i]);
        } else if i < a + rs.len() {
            assert(parts[i] == rs[i - a]);
        } else {
            assert(parts[i] == ls[b + (i - a - rs.len())]);
        }
    }
}

fn push_vec_chars(s: &mut String, v: &Vec<char>)
    ensures
        final(s)@ == old(s)@ + v@,
{
    crate::text::push_chars(s, v.as_slice());
}

/// Replaces the raw lines in the half-open range `[raw_start, raw_end)` of
/// `original` (same convention as `ParsedLine::src_start`/`src_end`) with
/// `replacement`, returning the new full file content. The replacement's
/// own lines are read as `str::lines` reads them; the output uses the
/// original's line separator and ends with one exactly when the original
/// ended with a line feed. `raw_start == raw_end` inserts without removing
/// anything, and out-of-range indices are clamped rather than panicking.
pub fn splice_raw_lines(original: &str, raw_start: usize, raw_end: usize, replacement: &str) -> (r:
    String)
    ensures
        r@ == splice_text(original@, raw_start as int, raw_end as int, replacement@),
{
    let orig = str_chars(original);
    let repl = str_chars(replacement);
    let crlf = crate::text::contains_chars(orig.as_slice(), ['\r', '\n'].as_slice());
    let trailing_newline = orig.len() > 0 && orig[orig.len() - 1] == '\n';
    let original_lines = split_lines(orig.as_slice());
    let replacement_lines = split_lines(repl.as_slice());
    let ghost ls = original_lines@.map_values(|l: Vec<char>| l@);
    let ghost rs = replacement_lines@.map_values(|l: Vec<char>| l@);
    let n = original_lines.len();
    let a = if raw_start < n {
        raw_start
    } else {
        n
    };
    let b = if raw_end < a {
        a
    } else if raw_end > n {
        n
    } else {
        raw_end
    };
    let ghost parts = ls.take(a as int) + rs + ls.skip(b as int);
    assert(parts == spliced_lines(original@, raw_start as int, raw_end as int, replacement@));
    let ghost sep = line_sep(original@);
    let mut result = String::new();
    let ghost mut count: int = 0;
    let mut any = false;
    let mut i: usize = 0;
    while i < a
        invariant
            i <= a <= b <= n,
            n == original_lines@.len(),
            ls == original_lines@.map_values(|l: Vec<char>| l@),
            count == i,
            any == (count > 0),
            sep == (if crlf {
                seq!['\r', '\n']
            } else {
                seq!['\n']
            }),
            result@ == join_with(parts.take(count), sep),
            parts == ls.take(a as int) + rs + ls.skip(b as int),
        decreases a - i,
    {
        proof {
            lemma_join_push(parts.take(count), parts[count], sep);
            assert(parts.take(count + 1) =~= parts.take(count).push(parts[count]));
            assert(parts[count] == ls[i as int]);
        }
        if any {
            if crlf {
                crate::text::string_push(&mut result, '\r');
            }
            crate::text::string_push(&mut result, '\n');
        }
        push_vec_chars(&mut result, &original_lines[i]);
        proof {
            count = count + 1;
        }
        any = true;
        i = i + 1;
    }
    let mut j: usize = 0;
    while j < replacement_lines.len()
        invariant
            j <= rs.len(),
            a <= b <= n,
            rs == replacement_lines@.map_values(|l: Vec<char>| l@),
            count == a + j,
            any == (count > 0),
            sep == (if crlf {
                seq!['\r', '\n']
            } else {
                seq!['\n']
            }),
            result@ == join_with(parts.take(count), sep),
            parts == ls.take(a as int) + rs + ls.skip(b as int),
            ls.len() == n,
        decreases rs.len() - j,
    {
        proof {
            lemma_join_push(parts.take(count), parts[count], sep);
            assert(parts.take(count + 1) =~= parts.take(count).push(parts[count]));
            assert(parts[count] == rs[j as int]);
        }
        if any {
            if crlf {
                crate::text::string_push(&mut result, '\r');
            }
            crate::text::string_push(&mut result, '\n');
        }
        push_vec_chars(&mut result, &replacement_lines[j]);
        proof {
            count = count + 1;
        }
        any = true;
        j = j + 1;
    }
    let mut k: usize = b;
    while k < n
        invariant
            a <= b <= k <= n,
            n == original_lines@.len(),
            ls == original_lines@.map_values(|l: Vec<char>| l@),
            count == a + rs.len() + (k - b),
            any == (count > 0),
            sep == (if crlf {
                seq!['\r', '\n']
            } else {
                seq!['\n']
            }),
            result@ == join_with(parts.take(count), sep),
            parts == ls.take(a as int) + rs + ls.skip(b as int),
        decreases n - k,
    {
        proof {
            lemma_join_push(parts.take(count), parts[count], sep);
            assert(parts.take(count + 1) =~= parts.take(count).push(parts[count]));
            assert(parts[count] == ls[k as int]);
        }
        if any {
            if crlf {
                crate::text::string_push(&mut result, '\r');
            }
            crate::text::string_push(&mut result, '\n');
        }
        push_vec_chars(&mut result, &original_lines[k]);
        proof {
            count = count + 1;
        }
        any = true;
        k = k + 1;
    }
    assert(parts.take(count) =~= parts);
    if trailing_newline {
        if crlf {
            crate::text::string_push(&mut result, '\r');
        }
        crate::text::string_push(&mut result, '\n');
        return result;
    }
    proof {
        lemma_spliced_no_lf(original@, raw_start as int, raw_end as int, replacement@);
    }
    let ghost mut q = parts;
    let mut trimming = true;
    while trimming
        invariant
            result@ == join_with(q, sep),
            all_no_lf(q),
            trim_blank_tail(q) == trim_blank_tail(parts),
            !trimming ==> trim_blank_tail(q) == q,
            sep == (if crlf {
                seq!['\r', '\n']
            } else {
                seq!['\n']
            }),
        decreases result@.len() + (if trimming { 1int } else { 0int }),
    {
        proof {
            lemma_join_ends_lf(q, sep);
        }
        let ghost before = result@;
        match crate::text::string_pop(&mut result) {
            Some(c) => {
                if c == '\n' {
                    assert(before.drop_last() =~= join_with(q.drop_last(), sep) + sep.drop_last());
                    if crlf {
                        crate::text::string_pop(&mut result);
                        assert(join_with(q.drop_last(), sep) + sep.drop_last() =~= join_with(
                            q.drop_last(),
                            sep,
                        ) + seq!['\r']);
                        assert((join_with(q.drop_last(), sep) + seq!['\r']).drop_last()
                            =~= join_with(q.drop_last(), sep));
                    } else {
                        assert(join_with(q.drop_last(), sep) + sep.drop_last() =~= join_with(
                            q.drop_last(),
                            sep,
                        ));
                    }
                    proof {
                        assert(trim_blank_tail(q) == trim_blank_tail(q.drop_last()));
                        assert forall|i: int| 0 <= i < q.drop_last().len() implies #[trigger] no_lf(
                            q.drop_last()[i],
                        ) by {
                            assert(q.drop_last()[i] == q[i]);
                        }
                        q = q.drop_last();
                    }
                } else {
                    crate::text::string_push(&mut result, c);
                    assert(result@ =~= before);
                    trimming = false;
                }
            },
            None => {
                trimming = false;
            },
        }
    }
    result
}

} // verus!
