//! Framework-agnostic word wrapping.
//!
//! The content pane's scroll model and the renderer must agree on exactly
//! how many terminal rows a line occupies once wrapped, so both use this one
//! algorithm: `row_count` for "how many rows will this take" and
//! `wrap_row_ranges` for "here are the rows".

use vstd::prelude::*;
use vstd::utf8::{encode_scalar, encode_utf8};
use core::ops::Range;
use unicode_width::UnicodeWidthChar;
use crate::text::{is_white_space, is_whitespace, str_chars};

verus! {

broadcast use vstd::utf8::char_is_scalar;

/// The display width `UnicodeWidthChar::width` gives a character:
/// `None` for a control character.
pub uninterp spec fn unicode_char_width(c: char) -> Option<usize>;

/// `UnicodeWidthChar::width` (unicode-width): the result is
/// `unicode_char_width(c)`. What the crate's source shows is stated too: it
/// is `None` exactly for the C0 and C1 control characters, `Some(1)` for
/// printable ASCII, and never more than 3. The width tables themselves are
/// not restated.
#[verifier::external_body]
fn char_width(c: char) -> (r: Option<usize>)
    ensures
        r == unicode_char_width(c),
        r is None <==> ((c as u32) < 0x20 || (0x7f <= (c as u32) && (c as u32) < 0xa0)),
        (0x20 <= (c as u32) && (c as u32) < 0x7f) ==> r == Some(1usize),
        r matches Some(w) ==> w <= 3,
{
    UnicodeWidthChar::width(c)
}

/// The columns a character occupies when wrapping: a control character
/// occupies none.
pub open spec fn char_cols(c: char) -> int {
    match unicode_char_width(c) {
        Some(w) => w as int,
        None => 0,
    }
}

/// What is known of a character's columns without the width tables: none
/// for a control character, one for printable ASCII, never more than 3.
pub open spec fn width_facts(c: char) -> bool {
    &&& ((c as u32) < 0x20 || (0x7f <= (c as u32) && (c as u32) < 0xa0)) ==> char_cols(c) == 0
    &&& (0x20 <= (c as u32) && (c as u32) < 0x7f) ==> char_cols(c) == 1
    &&& 0 <= char_cols(c) <= 3
}

/// The width facts of every character of `cs`.
fn width_facts_of(cs: &Vec<char>)
    ensures
        forall|i: int| 0 <= i < cs@.len() ==> #[trigger] width_facts(cs@[i]),
{
    let mut i: usize = 0;
    while i < cs.len()
        invariant
            i <= cs@.len(),
            forall|k: int| 0 <= k < i ==> #[trigger] width_facts(cs@[k]),
        decreases cs@.len() - i,
    {
        let _ = char_width(cs[i]);
        i = i + 1;
    }
}

/// The columns `cs[a..b]` occupies.
pub open spec fn cols(cs: Seq<char>, a: int, b: int) -> int
    decreases b - a,
{
    if b <= a {
        0
    } else {
        cols(cs, a, b - 1) + char_cols(cs[b - 1])
    }
}

/// The first index `>= i` at which a row that starts at `start` must end:
/// a line feed, or a character that no longer fits in `width` columns, if
/// any.
pub open spec fn overflow_from(cs: Seq<char>, width: int, start: int, i: int) -> Option<int>
    decreases cs.len() - i,
{
    if i < start || i >= cs.len() {
        None
    } else if cs[i] == '\n' || cols(cs, start, i + 1) > width {
        Some(i)
    } else {
        overflow_from(cs, width, start, i + 1)
    }
}

/// The last index in `[start, i)` holding white space, if any.
pub open spec fn last_ws(cs: Seq<char>, start: int, i: int) -> Option<int>
    decreases i - start,
{
    if i <= start {
        None
    } else if is_white_space(cs[i - 1]) {
        Some(i - 1)
    } else {
        last_ws(cs, start, i - 1)
    }
}

pub proof fn lemma_overflow_from(cs: Seq<char>, width: int, start: int, i: int)
    requires
        start <= i,
    ensures
        overflow_from(cs, width, start, i) matches Some(j) ==> i <= j < cs.len(),
    decreases cs.len() - i,
{
    if i < cs.len() && cs[i] != '\n' && cols(cs, start, i + 1) <= width {
        lemma_overflow_from(cs, width, start, i + 1);
    }
}

pub proof fn lemma_last_ws(cs: Seq<char>, start: int, i: int)
    ensures
        last_ws(cs, start, i) matches Some(j) ==> start <= j < i && is_white_space(cs[j]),
        forall|k: int|
            (match last_ws(cs, start, i) {
                Some(j) => j,
                None => start - 1,
            }) < k < i && start <= k ==> !is_white_space(#[trigger] cs[k]),
    decreases i - start,
{
    if i > start && !is_white_space(cs[i - 1]) {
        lemma_last_ws(cs, start, i - 1);
    }
}

/// The rows, as character index ranges, of `cs` wrapped greedily from
/// index `start`. A line feed ends a row and belongs to no row. Otherwise a
/// row takes characters while they fit; at the first one that does not
/// fit: if it is the row's first character it stands alone;
/// if it is white space the row ends before it and it is dropped; otherwise
/// the row ends at the last white space seen in it (dropped), or, with no
/// white space in the row, right before the character (a hard break).
pub open spec fn rows_from(cs: Seq<char>, width: int, start: int) -> Seq<(int, int)>
    decreases cs.len() - start,
{
    if start < 0 || start >= cs.len() {
        seq![]
    } else {
        match overflow_from(cs, width, start, start) {
            None => seq![(start, cs.len() as int)],
            Some(i) => {
                proof {
                    lemma_overflow_from(cs, width, start, start);
                    lemma_last_ws(cs, start, i);
                }
                if cs[i] == '\n' {
                    seq![(start, i)] + rows_from(cs, width, i + 1)
                } else if i == start {
                    seq![(start, i + 1)] + rows_from(cs, width, i + 1)
                } else if is_white_space(cs[i]) {
                    seq![(start, i)] + rows_from(cs, width, i + 1)
                } else {
                    match last_ws(cs, start, i) {
                        Some(ws) => seq![(start, ws)] + rows_from(cs, width, ws + 1),
                        None => seq![(start, i)] + rows_from(cs, width, i),
                    }
                }
            },
        }
    }
}

/// The rows of `cs` wrapped to `width` columns, as character index ranges:
/// one empty row for empty text, one unbroken row for width 0.
pub open spec fn wrap_rows(cs: Seq<char>, width: int) -> Seq<(int, int)> {
    if cs.len() == 0 {
        seq![(0, 0)]
    } else if width == 0 {
        seq![(0, cs.len() as int)]
    } else {
        rows_from(cs, width, 0)
    }
}

/// The byte offset, in UTF-8, of character index `k` of `cs`.
pub open spec fn byte_offset(cs: Seq<char>, k: int) -> int {
    encode_utf8(cs.take(k)).len() as int
}

/// Character index ranges mapped to byte ranges of `cs`.
pub open spec fn byte_rows(cs: Seq<char>, rows: Seq<(int, int)>) -> Seq<(int, int)> {
    rows.map_values(|p: (int, int)| (byte_offset(cs, p.0), byte_offset(cs, p.1)))
}

/// The start and end of each range.
pub open spec fn ranges_view(v: Seq<Range<usize>>) -> Seq<(int, int)> {
    v.map_values(|r: Range<usize>| (r.start as int, r.end as int))
}

proof fn lemma_encode_concat(a: Seq<char>, b: Seq<char>)
    ensures
        encode_utf8(a + b) == encode_utf8(a) + encode_utf8(b),
    decreases a.len(),
{
    if a.len() == 0 {
        assert(a + b =~= b);
        assert(encode_utf8(a) =~= Seq::<u8>::empty());
        assert(encode_utf8(a) + encode_utf8(b) =~= encode_utf8(b));
    } else {
        lemma_encode_concat(a.drop_first(), b);
        assert((a + b).drop_first() =~= a.drop_first() + b);
        assert((a + b)[0] == a[0]);
        assert(encode_utf8(a + b) =~= encode_scalar(a[0] as u32) + encode_utf8(a.drop_first() + b));
    }
}

proof fn lemma_byte_offset_step(cs: Seq<char>, k: int)
    requires
        0 <= k < cs.len(),
    ensures
        byte_offset(cs, k + 1) == byte_offset(cs, k) + encode_scalar(cs[k] as u32).len(),
        byte_offset(cs, k + 1) <= encode_utf8(cs).len(),
{
    lemma_encode_concat(cs.take(k), seq![cs[k]]);
    assert(cs.take(k + 1) =~= cs.take(k) + seq![cs[k]]);
    let s1 = seq![cs[k]];
    assert(s1.drop_first() =~= Seq::<char>::empty());
    assert(encode_utf8(s1.drop_first()) =~= Seq::<u8>::empty());
    assert(encode_utf8(s1) == encode_scalar(s1[0] as u32) + encode_utf8(s1.drop_first()));
    assert(encode_utf8(s1) =~= encode_scalar(cs[k] as u32));
    lemma_encode_concat(cs.take(k + 1), cs.skip(k + 1));
    assert(cs.take(k + 1) + cs.skip(k + 1) =~= cs);
}

proof fn lemma_rows_push(
    cs: Seq<char>,
    rows: Seq<Range<usize>>,
    done: Seq<(int, int)>,
    lo: usize,
    hi: usize,
    a: int,
    b: int,
)
    requires
        ranges_view(rows) == byte_rows(cs, done),
        lo == byte_offset(cs, a),
        hi == byte_offset(cs, b),
    ensures
        ranges_view(rows.push(Range { start: lo, end: hi })) == byte_rows(cs, done.push((a, b))),
{
    assert(ranges_view(rows.push(Range { start: lo, end: hi })) =~= ranges_view(rows).push(
        (lo as int, hi as int),
    ));
    assert(byte_rows(cs, done.push((a, b))) =~= byte_rows(cs, done).push(
        (byte_offset(cs, a), byte_offset(cs, b)),
    ));
}

fn char_len_utf8(c: char) -> (r: usize)
    ensures
        r == encode_scalar(c as u32).len(),
{
    let u = c as u32;
    if u <= 0x7f {
        1
    } else if u <= 0x7ff {
        2
    } else if u <= 0xffff {
        3
    } else {
        4
    }
}

/// Byte offsets of every character index of `cs`, and its end.
fn byte_offsets(text: &str, cs: &Vec<char>) -> (r: Vec<usize>)
    requires
        cs@ == text@,
    ensures
        r@.len() == cs@.len() + 1,
        forall|k: int| 0 <= k <= cs@.len() ==> r@[k] as int == byte_offset(cs@, k),
{
    let total = text.as_bytes().len();
    let mut offs: Vec<usize> = Vec::new();
    offs.push(0);
    assert(encode_utf8(cs@.take(0)) =~= Seq::<u8>::empty()) by {
        assert(cs@.take(0) =~= Seq::<char>::empty());
    }
    let mut acc: usize = 0;
    let mut k: usize = 0;
    while k < cs.len()
        invariant
            k <= cs@.len(),
            total == encode_utf8(cs@).len(),
            acc as int == byte_offset(cs@, k as int),
            offs@.len() == k + 1,
            forall|m: int| 0 <= m <= k ==> offs@[m] as int == byte_offset(cs@, m),
        decreases cs@.len() - k,
    {
        proof {
            lemma_byte_offset_step(cs@, k as int);
        }
        acc = acc + char_len_utf8(cs[k]);
        offs.push(acc);
        k = k + 1;
    }
    offs
}

/// Word-wraps `text` to `width` display columns (Unicode-aware: CJK
/// characters count as two columns), returning the byte range of each
/// wrapped row. A line feed (as in a fenced code block) ends its row and
/// starts the next; it belongs to neither. Always returns at least one row,
/// even for empty text or `width == 0` (one unbroken row), so a line never
/// maps to zero rows.
pub fn wrap_row_ranges(text: &str, width: usize) -> (r: Vec<Range<usize>>)
    ensures
        ranges_view(r@) == byte_rows(text@, wrap_rows(text@, width as int)),
        r@.len() >= 1,
        forall|i: int| 0 <= i < text@.len() ==> #[trigger] width_facts(text@[i]),
{
    let cs = str_chars(text);
    width_facts_of(&cs);
    let n = cs.len();
    let offs = byte_offsets(text, &cs);
    let mut rows: Vec<Range<usize>> = Vec::new();
    if n == 0 {
        rows.push(0..0);
        assert(byte_offset(text@, 0) == 0) by {
            assert(text@.take(0) =~= Seq::<char>::empty());
        }
        assert(ranges_view(rows@) =~= byte_rows(text@, wrap_rows(text@, width as int)));
        return rows;
    }
    if width == 0 {
        rows.push(0..offs[n]);
        assert(byte_offset(text@, 0) == 0) by {
            assert(text@.take(0) =~= Seq::<char>::empty());
        }
        assert(ranges_view(rows@) =~= byte_rows(text@, wrap_rows(text@, width as int)));
        return rows;
    }
    let ghost cv = cs@;
    let ghost w = width as int;
    let ghost mut done: Seq<(int, int)> = seq![];
    let mut row_start: usize = 0;
    let mut col: usize = 0;
    let mut last: Option<usize> = None;
    let mut i: usize = 0;
    while i < n
        invariant
            n == cv.len(),
            cv == cs@,
            cv == text@,
            w == width,
            width > 0,
            offs@.len() == n + 1,
            forall|k: int| 0 <= k <= n ==> offs@[k] as int == byte_offset(cv, k),
            row_start <= i <= n,
            col as int == cols(cv, row_start as int, i as int),
            col <= width,
            overflow_from(cv, w, row_start as int, row_start as int) == overflow_from(
                cv,
                w,
                row_start as int,
                i as int,
            ),
            last == (match last_ws(cv, row_start as int, i as int) {
                Some(j) => Some(j as usize),
                None => None::<usize>,
            }),
            done + rows_from(cv, w, row_start as int) == rows_from(cv, w, 0),
            ranges_view(rows@) == byte_rows(cv, done),
        decreases n - row_start, n - i,
    {
        let ch = cs[i];
        if ch == '\n' {
            proof {
                lemma_overflow_from(cv, w, row_start as int, row_start as int);
                assert(overflow_from(cv, w, row_start as int, i as int) == Some(i as int));
            }
            let ghost old_done = done;
            let ghost old_start = row_start as int;
            let lo = offs[row_start];
            let hi = offs[i];
            assert(lo as int == byte_offset(cv, row_start as int));
            assert(hi as int == byte_offset(cv, (i) as int));
            let ghost before_rows = rows@;
            rows.push(lo..hi);
            assert(rows@ == before_rows.push(lo..hi));
            proof {
                lemma_rows_push(cv, before_rows, done, lo, hi, old_start, i as int);
                done = done.push((old_start, i as int));
            }
            row_start = i + 1;
            proof {
                assert(ranges_view(rows@) =~= byte_rows(cv, done));
                assert(done + rows_from(cv, w, row_start as int) =~= old_done + rows_from(
                    cv,
                    w,
                    old_start,
                ));
                assert(cols(cv, row_start as int, row_start as int) == 0);
            }
            i = row_start;
            col = 0;
            last = None;
            continue;
        }
        let ch_width = match char_width(ch) {
            Some(x) => x,
            None => 0,
        };
        if ch_width > width - col {
            proof {
                lemma_overflow_from(cv, w, row_start as int, row_start as int);
                lemma_last_ws(cv, row_start as int, i as int);
                assert(overflow_from(cv, w, row_start as int, i as int) == Some(i as int));
            }
            let ghost old_done = done;
            let ghost old_start = row_start as int;
            if i == row_start {
                let lo = offs[row_start];
                let hi = offs[i + 1];
                assert(lo as int == byte_offset(cv, row_start as int));
                assert(hi as int == byte_offset(cv, (i + 1) as int));
                let ghost before_rows = rows@;
                rows.push(lo..hi);
                assert(rows@ == before_rows.push(lo..hi));
                proof {
                    lemma_rows_push(cv, before_rows, done, lo, hi, old_start, i + 1);
                    done = done.push((old_start, i + 1));
                }
                row_start = i + 1;
            } else if is_whitespace(ch) {
                let lo = offs[row_start];
                let hi = offs[i];
                assert(lo as int == byte_offset(cv, row_start as int));
                assert(hi as int == byte_offset(cv, (i) as int));
                let ghost before_rows = rows@;
                rows.push(lo..hi);
                assert(rows@ == before_rows.push(lo..hi));
                proof {
                    lemma_rows_push(cv, before_rows, done, lo, hi, old_start, i as int);
                    done = done.push((old_start, i as int));
                }
                row_start = i + 1;
            } else if let Some(ws) = last {
                let lo = offs[row_start];
                let hi = offs[ws];
                assert(lo as int == byte_offset(cv, row_start as int));
                assert(hi as int == byte_offset(cv, (ws) as int));
                let ghost before_rows = rows@;
                rows.push(lo..hi);
                assert(rows@ == before_rows.push(lo..hi));
                proof {
                    lemma_rows_push(cv, before_rows, done, lo, hi, old_start, ws as int);
                    done = done.push((old_start, ws as int));
                }
                row_start = ws + 1;
            } else {
                let lo = offs[row_start];
                let hi = offs[i];
                assert(lo as int == byte_offset(cv, row_start as int));
                assert(hi as int == byte_offset(cv, (i) as int));
                let ghost before_rows = rows@;
                rows.push(lo..hi);
                assert(rows@ == before_rows.push(lo..hi));
                proof {
                    lemma_rows_push(cv, before_rows, done, lo, hi, old_start, i as int);
                    done = done.push((old_start, i as int));
                }
                row_start = i;
            }
            proof {
                assert(ranges_view(rows@) =~= byte_rows(cv, done));
                assert(old_done + rows_from(cv, w, old_start) == rows_from(cv, w, 0));
                assert(done + rows_from(cv, w, row_start as int) =~= old_done + rows_from(
                    cv,
                    w,
                    old_start,
                ));
                assert(cols(cv, row_start as int, row_start as int) == 0);
            }
            i = row_start;
            col = 0;
            last = None;
            continue;
        }
        if is_whitespace(ch) {
            last = Some(i);
        }
        col = col + ch_width;
        i = i + 1;
    }
    if row_start < n {
        let ghost old_done = done;
        let lo = offs[row_start];
                let hi = offs[n];
                assert(lo as int == byte_offset(cv, row_start as int));
                assert(hi as int == byte_offset(cv, (n) as int));
                let ghost before_rows = rows@;
                rows.push(lo..hi);
                assert(rows@ == before_rows.push(lo..hi));
        proof {
            lemma_overflow_from(cv, w, row_start as int, row_start as int);
            assert(overflow_from(cv, w, row_start as int, n as int) is None);
            lemma_rows_push(cv, before_rows, done, lo, hi, row_start as int, n as int);
            done = done.push((row_start as int, n as int));
            assert(ranges_view(rows@) =~= byte_rows(cv, done));
            assert(done =~= old_done + rows_from(cv, w, row_start as int));
        }
    } else {
        assert(done =~= done + rows_from(cv, w, row_start as int));
    }
    proof {
        assert(rows_from(cv, w, 0).len() >= 1) by {
            lemma_overflow_from(cv, w, 0, 0);
        }
    }
    rows
}

/// The number of wrapped rows `text` occupies at `width` columns (see
/// `wrap_row_ranges`).
pub fn row_count(text: &str, width: usize) -> (r: usize)
    ensures
        r == wrap_rows(text@, width as int).len(),
        forall|i: int| 0 <= i < text@.len() ==> #[trigger] width_facts(text@[i]),
{
    let rows = wrap_row_ranges(text, width);
    assert(ranges_view(rows@).len() == rows@.len());
    assert(byte_rows(text@, wrap_rows(text@, width as int)).len() == wrap_rows(
        text@,
        width as int,
    ).len());
    rows.len()
}


/// Columns only grow as a range extends.
pub proof fn lemma_cols_mono(cs: Seq<char>, a: int, b: int, c: int)
    requires
        a <= b <= c,
    ensures
        cols(cs, a, b) <= cols(cs, a, c),
    decreases c - b,
{
    if b < c {
        lemma_cols_mono(cs, a, b, c - 1);
        assert(char_cols(cs[c - 1]) >= 0);
    }
}

/// The row from `start` still fits after character `k`.
pub open spec fn fits_through(cs: Seq<char>, width: int, start: int, k: int) -> bool {
    cols(cs, start, k + 1) <= width
}

proof fn lemma_overflow_first(cs: Seq<char>, width: int, start: int, i: int)
    requires
        start <= i,
    ensures
        forall|k: int|
            i <= k < (match overflow_from(cs, width, start, i) {
                Some(j) => j,
                None => cs.len() as int,
            }) ==> #[trigger] fits_through(cs, width, start, k),
        overflow_from(cs, width, start, i) matches Some(j) ==> cs[j] == '\n' || cols(cs, start, j + 1)
            > width,
        forall|k: int|
            i <= k < (match overflow_from(cs, width, start, i) {
                Some(j) => j,
                None => cs.len() as int,
            }) ==> #[trigger] cs[k] != '\n',
    decreases cs.len() - i,
{
    if i < cs.len() && cs[i] != '\n' && cols(cs, start, i + 1) <= width {
        lemma_overflow_first(cs, width, start, i + 1);
    }
}

/// Row `r` lies within the text from `start` on and fits in `width`
/// columns, unless it is a single character.
pub open spec fn row_fits(cs: Seq<char>, width: int, start: int, r: (int, int)) -> bool {
    &&& start <= r.0 <= r.1 <= cs.len()
    &&& (cols(cs, r.0, r.1) <= width || r.1 == r.0 + 1)
}

/// Every row from `start` on lies within the text, after `start`, and
/// fits in `width` columns unless it is a single character.
pub proof fn lemma_rows_from_fit(cs: Seq<char>, width: int, start: int)
    requires
        width > 0,
        0 <= start,
    ensures
        forall|k: int|
            0 <= k < rows_from(cs, width, start).len() ==> row_fits(
                cs,
                width,
                start,
                #[trigger] rows_from(cs, width, start)[k],
            ),
    decreases cs.len() - start,
{
    if start < cs.len() {
        lemma_overflow_from(cs, width, start, start);
        lemma_overflow_first(cs, width, start, start);
        let rows = rows_from(cs, width, start);
        match overflow_from(cs, width, start, start) {
            None => {
                assert(fits_through(cs, width, start, cs.len() - 1));
                assert(row_fits(cs, width, start, rows[0]));
            },
            Some(i) => {
                lemma_last_ws(cs, start, i);
                if i > start {
                    assert(fits_through(cs, width, start, i - 1));
                }
                let (row, next): ((int, int), int) = if cs[i] == '\n' {
                    ((start, i), i + 1)
                } else if i == start {
                    ((start, i + 1), i + 1)
                } else if is_white_space(cs[i]) {
                    ((start, i), i + 1)
                } else {
                    match last_ws(cs, start, i) {
                        Some(ws) => ((start, ws), ws + 1),
                        None => ((start, i), i),
                    }
                };
                if i > start && cs[i] != '\n' && !is_white_space(cs[i]) {
                    if let Some(ws) = last_ws(cs, start, i) {
                        lemma_cols_mono(cs, start, ws, i);
                    }
                }
                assert(rows == seq![row] + rows_from(cs, width, next));
                lemma_rows_from_fit(cs, width, next);
                assert forall|k: int| 0 <= k < rows.len() implies row_fits(
                    cs,
                    width,
                    start,
                    #[trigger] rows[k],
                ) by {
                    if k > 0 {
                        assert(rows[k] == rows_from(cs, width, next)[k - 1]);
                        assert(row_fits(cs, width, next, rows_from(cs, width, next)[k - 1]));
                    }
                }
            },
        }
    }
}

/// A row ending at `end` is followed at `next`: right away, or after one
/// white-space character (a dropped break point or line feed).
pub open spec fn gap_ok(cs: Seq<char>, end: int, next: int) -> bool {
    next == end || (next == end + 1 && is_white_space(cs[end]))
}

/// `rows` cover `cs` from `start` in order: the first starts at `start`,
/// each starts where the one before ended or one white-space character
/// later, and after the last comes the end of the text or one white-space
/// character and then the end. Nothing else is dropped or repeated.
pub open spec fn rows_tile(cs: Seq<char>, rows: Seq<(int, int)>, start: int) -> bool {
    &&& rows.len() >= 1
    &&& rows[0].0 == start
    &&& forall|k: int| 0 <= k < rows.len() ==> (#[trigger] rows[k]).0 <= rows[k].1
    &&& forall|k: int| 0 <= k < rows.len() - 1 ==> gap_ok(cs, #[trigger] rows[k].1, rows[k + 1].0)
    &&& gap_ok(cs, rows.last().1, cs.len() as int)
}

proof fn lemma_rows_from_tile(cs: Seq<char>, width: int, start: int)
    requires
        0 <= start < cs.len(),
    ensures
        rows_tile(cs, rows_from(cs, width, start), start),
    decreases cs.len() - start,
{
    lemma_overflow_from(cs, width, start, start);
    let rows = rows_from(cs, width, start);
    match overflow_from(cs, width, start, start) {
        None => {},
        Some(i) => {
            lemma_last_ws(cs, start, i);
            let (row, next): ((int, int), int) = if cs[i] == '\n' {
                ((start, i), i + 1)
            } else if i == start {
                ((start, i + 1), i + 1)
            } else if is_white_space(cs[i]) {
                ((start, i), i + 1)
            } else {
                match last_ws(cs, start, i) {
                    Some(ws) => ((start, ws), ws + 1),
                    None => ((start, i), i),
                }
            };
            let rest = rows_from(cs, width, next);
            assert(rows == seq![row] + rest);
            assert(gap_ok(cs, row.1, next));
            if next < cs.len() {
                lemma_rows_from_tile(cs, width, next);
                assert forall|k: int| 0 <= k < rows.len() implies (#[trigger] rows[k]).0 <= rows[k].1 by {
                    if k > 0 {
                        assert(rows[k] == rest[k - 1]);
                    }
                }
                assert forall|k: int| 0 <= k < rows.len() - 1 implies gap_ok(
                    cs,
                    #[trigger] rows[k].1,
                    rows[k + 1].0,
                ) by {
                    assert(rows[k + 1] == rest[k]);
                    if k > 0 {
                        assert(rows[k] == rest[k - 1]);
                    }
                }
                assert(rows.last() == rest.last());
            } else {
                assert(rest =~= Seq::<(int, int)>::empty());
                assert(rows =~= seq![row]);
            }
        },
    }
}

/// The rows of a wrap cover the whole text in order: between two rows, and
/// after the last, lies nothing or exactly one white-space character.
pub proof fn lemma_wrap_rows_tile(cs: Seq<char>, width: int)
    requires
        width >= 0,
    ensures
        rows_tile(cs, wrap_rows(cs, width), 0),
{
    if cs.len() > 0 && width > 0 {
        lemma_rows_from_tile(cs, width, 0);
    }
}

/// The row starting at `a` could have ended at white space `j` instead
/// (dropping it): no line feed comes first, and `cs[a..j]` fits in
/// `width` columns.
pub open spec fn could_end_at(cs: Seq<char>, width: int, a: int, j: int) -> bool {
    &&& is_white_space(cs[j])
    &&& forall|m: int| a <= m < j ==> cs[m] != '\n'
    &&& cols(cs, a, j) <= width
}

proof fn lemma_rows_from_greedy(cs: Seq<char>, width: int, start: int)
    requires
        0 <= start,
    ensures
        forall|k: int, j: int|
            0 <= k < rows_from(cs, width, start).len() && rows_from(cs, width, start)[k].1 < j
                < cs.len() ==> !#[trigger] could_end_at(
                cs,
                width,
                rows_from(cs, width, start)[k].0,
                j,
            ),
    decreases cs.len() - start,
{
    if start < cs.len() {
        lemma_overflow_from(cs, width, start, start);
        lemma_overflow_first(cs, width, start, start);
        let rows = rows_from(cs, width, start);
        match overflow_from(cs, width, start, start) {
            None => {
                assert(rows == seq![(start, cs.len() as int)]);
            },
            Some(i) => {
                lemma_last_ws(cs, start, i);
                let (row, next): ((int, int), int) = if cs[i] == '\n' {
                    ((start, i), i + 1)
                } else if i == start {
                    ((start, i + 1), i + 1)
                } else if is_white_space(cs[i]) {
                    ((start, i), i + 1)
                } else {
                    match last_ws(cs, start, i) {
                        Some(ws) => ((start, ws), ws + 1),
                        None => ((start, i), i),
                    }
                };
                let rest = rows_from(cs, width, next);
                assert(rows == seq![row] + rest);
                lemma_rows_from_greedy(cs, width, next);
                assert forall|k: int, j: int|
                    0 <= k < rows.len() && rows[k].1 < j < cs.len() implies !#[trigger] could_end_at(
                    cs,
                    width,
                    rows[k].0,
                    j,
                ) by {
                    if k > 0 {
                        assert(rows[k] == rest[k - 1]);
                    } else {
                        assert(rows[0] == row);
                        if cs[i] == '\n' {
                            assert(cs[i] == '\n' && start <= i < j);
                        } else if j > i {
                            lemma_cols_mono(cs, start, i + 1, j);
                        } else {
                            assert(!is_white_space(cs[j]));
                        }
                    }
                }
            },
        }
    }
}

/// Wrapping is greedy: no row could have been made longer by ending it at
/// a later white space. For every row, each white space after its end
/// either comes after a line feed or lies beyond the width (the row up to
/// it would not fit), so a row breaks at the last white space before the
/// first character that does not fit.
pub proof fn lemma_wrap_rows_greedy(cs: Seq<char>, width: int)
    requires
        width >= 0,
    ensures
        forall|k: int, j: int|
            0 <= k < wrap_rows(cs, width).len() && wrap_rows(cs, width)[k].1 < j < cs.len()
                ==> !#[trigger] could_end_at(cs, width, wrap_rows(cs, width)[k].0, j),
{
    if cs.len() > 0 && width > 0 {
        lemma_rows_from_greedy(cs, width, 0);
    }
}

proof fn lemma_rows_from_breaks(cs: Seq<char>, width: int, start: int)
    requires
        0 <= start,
        width > 0,
    ensures
        forall|k: int, m: int|
            0 <= k < rows_from(cs, width, start).len() && (#[trigger] rows_from(cs, width, start)[k]).0
                <= m < rows_from(cs, width, start)[k].1 ==> #[trigger] cs[m] != '\n',
        forall|k: int|
            0 <= k < rows_from(cs, width, start).len() - 1 && (#[trigger] rows_from(
                cs,
                width,
                start,
            )[k]).1 == rows_from(cs, width, start)[k + 1].0 ==> cols(
                cs,
                rows_from(cs, width, start)[k].0,
                rows_from(cs, width, start)[k].1 + 1,
            ) > width,
    decreases cs.len() - start,
{
    if start < cs.len() {
        lemma_overflow_from(cs, width, start, start);
        lemma_overflow_first(cs, width, start, start);
        let rows = rows_from(cs, width, start);
        match overflow_from(cs, width, start, start) {
            None => {
                assert(rows == seq![(start, cs.len() as int)]);
                assert forall|k: int, m: int| 0 <= k < rows.len() && (#[trigger] rows[k]).0 <= m
                    < rows[k].1 implies #[trigger] cs[m] != '\n' by {}
            },
            Some(i) => {
                lemma_last_ws(cs, start, i);
                let (row, next): ((int, int), int) = if cs[i] == '\n' {
                    ((start, i), i + 1)
                } else if i == start {
                    ((start, i + 1), i + 1)
                } else if is_white_space(cs[i]) {
                    ((start, i), i + 1)
                } else {
                    match last_ws(cs, start, i) {
                        Some(ws) => ((start, ws), ws + 1),
                        None => ((start, i), i),
                    }
                };
                let rest = rows_from(cs, width, next);
                assert(rows == seq![row] + rest);
                lemma_rows_from_breaks(cs, width, next);
                if next < cs.len() {
                    lemma_overflow_from(cs, width, next, next);
                    assert(rest.len() > 0 && rest[0].0 == next);
                }
                assert forall|k: int, m: int| 0 <= k < rows.len() && (#[trigger] rows[k]).0 <= m
                    < rows[k].1 implies #[trigger] cs[m] != '\n' by {
                    if k > 0 {
                        assert(rows[k] == rest[k - 1]);
                    } else if m == i {
                        assert(i == start && cs[i] != '\n');
                    }
                }
                assert forall|k: int| 0 <= k < rows.len() - 1 && (#[trigger] rows[k]).1 == rows[k
                    + 1].0 implies cols(cs, rows[k].0, rows[k].1 + 1) > width by {
                    if k > 0 {
                        assert(rows[k] == rest[k - 1]);
                        assert(rows[k + 1] == rest[k]);
                    } else {
                        assert(rows[1] == rest[0]);
                    }
                }
            },
        }
    }
}

/// At a positive width no row holds a line feed, and a row that is
/// followed right away by the next (nothing dropped between them) ends
/// only because its next character would not fit: the row up to and
/// including that character is wider than `width`.
pub proof fn lemma_wrap_rows_breaks(cs: Seq<char>, width: int)
    requires
        width > 0,
    ensures
        forall|k: int, m: int|
            0 <= k < wrap_rows(cs, width).len() && (#[trigger] wrap_rows(cs, width)[k]).0 <= m
                < wrap_rows(cs, width)[k].1 ==> #[trigger] cs[m] != '\n',
        forall|k: int|
            0 <= k < wrap_rows(cs, width).len() - 1 && (#[trigger] wrap_rows(cs, width)[k]).1
                == wrap_rows(cs, width)[k + 1].0 ==> cols(
                cs,
                wrap_rows(cs, width)[k].0,
                wrap_rows(cs, width)[k].1 + 1,
            ) > width,
{
    if cs.len() > 0 {
        lemma_rows_from_breaks(cs, width, 0);
    }
}

/// Wrapping always gives at least one row, and at a positive width every
/// row fits in it, except a single character wider than the width alone.
pub proof fn lemma_wrap_rows_fit(cs: Seq<char>, width: int)
    requires
        width >= 0,
    ensures
        wrap_rows(cs, width).len() >= 1,
        width > 0 ==> forall|k: int|
            0 <= k < wrap_rows(cs, width).len() ==> row_fits(
                cs,
                width,
                0,
                #[trigger] wrap_rows(cs, width)[k],
            ),
{
    if cs.len() > 0 && width > 0 {
        lemma_overflow_from(cs, width, 0, 0);
        lemma_rows_from_fit(cs, width, 0);
    }
}

} // verus!
