//! Editing in an outside editor: the text of a block handed to the editor,
//! and which editors are tried.

use vstd::prelude::*;
use crate::parser::{
    all_no_lf, clamp_end, clamp_start, ends_with_newline, has_crlf, join_with, lemma_join_ends_lf, lemma_newline_index,
    line_sep, lines_of, newline_index, no_lf, splice_text, spliced_lines, split_lines, strip_cr,
    trim_blank_tail,
};
use crate::text::{is_white_space, is_whitespace, push_chars, str_chars, string_from_chars, string_push};

verus! {

/// Raw lines `[raw_start, raw_end)` of `original` (clamped into range),
/// each ended by a line feed: what the block editor is given.
pub open spec fn block_text(original: Seq<char>, raw_start: int, raw_end: int) -> Seq<char> {
    let ls = lines_of(original);
    let n = ls.len() as int;
    let j = join_with(ls.subrange(clamp_start(n, raw_start), clamp_end(n, raw_start, raw_end)), seq!['\n']);
    if j.len() == 0 {
        j
    } else {
        j + seq!['\n']
    }
}

/// The text of a block to edit: raw lines `[raw_start, raw_end)` of
/// `original` (as `str::lines` splits it, the range clamped into the
/// file) joined by line feeds, with a final line feed unless empty; with
/// the clamped range, which the edited text is spliced back into.
pub fn block_edit_text(original: &str, raw_start: usize, raw_end: usize) -> (r: (String, usize, usize))
    ensures
        r.1 == clamp_start(lines_of(original@).len() as int, raw_start as int),
        r.2 == clamp_end(lines_of(original@).len() as int, raw_start as int, raw_end as int),
        r.0@ == block_text(original@, raw_start as int, raw_end as int),
{
    let chars = str_chars(original);
    let lines = split_lines(chars.as_slice());
    let ghost ls = lines@.map_values(|l: Vec<char>| l@);
    let n = lines.len();
    let a = if raw_start < n {
        raw_start
    } else {
        n
    };
    let b = if raw_end < a {
        a
    } else if raw_end > n {
        n
    } else {
        raw_end
    };
    let mut text = String::new();
    let mut k: usize = a;
    assert(ls.subrange(a as int, a as int) =~= Seq::<Seq<char>>::empty());
    while k < b
        invariant
            a <= k <= b <= n == lines@.len(),
            ls == lines@.map_values(|l: Vec<char>| l@),
            text@ == join_with(ls.subrange(a as int, k as int), seq!['\n']),
        decreases b - k,
    {
        if k > a {
            string_push(&mut text, '\n');
        }
        push_chars(&mut text, lines[k].as_slice());
        proof {
            let parts = ls.subrange(a as int, k + 1);
            assert(parts.drop_last() =~= ls.subrange(a as int, k as int));
            assert(parts.last() == lines@[k as int]@);
            if k == a {
                assert(parts.len() == 1);
            }
        }
        k = k + 1;
    }
    if text.as_str().is_empty() {
        (text, a, b)
    } else {
        string_push(&mut text, '\n');
        (text, a, b)
    }
}

/// The text holds something besides white space.
pub open spec fn has_non_space(s: Seq<char>) -> bool {
    exists|i: int| 0 <= i < s.len() && !is_white_space(#[trigger] s[i])
}

/// The editors to try, in order: the configured editor when it is set to
/// something besides white space, else `vi` then `nano`.
pub open spec fn editors(configured: Option<Seq<char>>) -> Seq<Seq<char>> {
    match configured {
        Some(e) => if has_non_space(e) {
            seq![e]
        } else {
            seq![seq!['v', 'i'], seq!['n', 'a', 'n', 'o']]
        },
        None => seq![seq!['v', 'i'], seq!['n', 'a', 'n', 'o']],
    }
}

/// The editors to try given the configured one (`$EDITOR`, when set):
/// it alone when it holds more than white space, else `vi` then `nano`.
pub fn editor_candidates(configured: Option<&str>) -> (r: Vec<String>)
    ensures
        r@.map_values(|s: String| s@) == editors(
            match configured {
                Some(e) => Some(e@),
                None => None,
            },
        ),
{
    let fallback = {
        let mut v: Vec<String> = Vec::new();
        let vi = ['v', 'i'];
        let nano = ['n', 'a', 'n', 'o'];
        v.push(string_from_chars(vi.as_slice()));
        v.push(string_from_chars(nano.as_slice()));
        assert(v@.map_values(|s: String| s@) =~= seq![seq!['v', 'i'], seq!['n', 'a', 'n', 'o']]);
        v
    };
    match configured {
        None => fallback,
        Some(e) => {
            let cs = str_chars(e);
            let mut i: usize = 0;
            while i < cs.len()
                invariant
                    i <= cs@.len(),
                    cs@ == e@,
                    configured == Some(e),
                    forall|k: int| 0 <= k < i ==> is_white_space(#[trigger] cs@[k]),
                decreases cs@.len() - i,
            {
                if !is_whitespace(cs[i]) {
                    let mut v: Vec<String> = Vec::new();
                    v.push(e.to_owned());
                    assert(!is_white_space(e@[i as int]));
                    assert(has_non_space(e@));
                    assert(v@.map_values(|s: String| s@) =~= seq![e@]);
                    return v;
                }
                i = i + 1;
            }
            fallback
        },
    }
}


// ---------------------------------------------------------------------------
// Editing a block and splicing it back
// ---------------------------------------------------------------------------

/// A line that holds neither a line feed nor a carriage return.
pub open spec fn bare_line(l: Seq<char>) -> bool {
    !l.contains('\n') && !l.contains('\r')
}

proof fn lemma_join_cons(x: Seq<char>, rest: Seq<Seq<char>>, sep: Seq<char>)
    requires
        rest.len() > 0,
    ensures
        join_with(seq![x] + rest, sep) == x + sep + join_with(rest, sep),
    decreases rest.len(),
{
    let all = seq![x] + rest;
    if rest.len() == 1 {
        assert(all.drop_last() =~= seq![x]);
        assert(all.last() == rest[0]);
        assert(join_with(rest, sep) == rest[0]);
        assert(join_with(seq![x], sep) == x);
    } else {
        lemma_join_cons(x, rest.drop_last(), sep);
        assert(all.drop_last() =~= seq![x] + rest.drop_last());
        assert(all.last() == rest.last());
        let jr = join_with(rest.drop_last(), sep);
        assert(join_with(rest, sep) == jr + sep + rest.last());
        assert((x + sep + jr) + sep + rest.last() =~= x + sep + (jr + sep + rest.last()));
    }
}

proof fn lemma_newline_at_end(x: Seq<char>, tail: Seq<char>)
    requires
        !x.contains('\n'),
    ensures
        newline_index(x + seq!['\n'] + tail) == x.len(),
    decreases x.len(),
{
    let s = x + seq!['\n'] + tail;
    if x.len() == 0 {
        assert(s[0] == '\n');
    } else {
        assert(s[0] == x[0]);
        assert(x[0] != '\n');
        let x2 = x.drop_first();
        assert forall|k: int| 0 <= k < x2.len() implies x2[k] != '\n' by {
            assert(x2[k] == x[k + 1]);
        }
        lemma_newline_at_end(x2, tail);
        assert(s.drop_first() =~= x2 + seq!['\n'] + tail);
    }
}

/// Joining bare lines with line feeds and ending with one gives text
/// whose lines (as `str::lines` reads them) are those lines.
pub proof fn lemma_lines_of_joined(parts: Seq<Seq<char>>)
    requires
        parts.len() > 0,
        forall|k: int| 0 <= k < parts.len() ==> bare_line(#[trigger] parts[k]),
    ensures
        lines_of(join_with(parts, seq!['\n']) + seq!['\n']) == parts,
    decreases parts.len(),
{
    let x = parts[0];
    assert(bare_line(parts[0]));
    let t = join_with(parts, seq!['\n']) + seq!['\n'];
    if parts.len() == 1 {
        assert(join_with(parts, seq!['\n']) == x);
        lemma_newline_at_end(x, seq![]);
        assert(t =~= x + seq!['\n'] + Seq::<char>::empty());
        assert(t.take(x.len() as int) =~= x);
        assert(t.skip(x.len() as int + 1) =~= Seq::<char>::empty());
        assert(lines_of(Seq::<char>::empty()) =~= Seq::<Seq<char>>::empty());
        assert(strip_cr(x) == x) by {
            if x.len() > 0 {
                assert(x.contains(x.last()));
            }
        }
        assert(lines_of(t) =~= seq![x]);
        assert(parts =~= seq![x]);
    } else {
        let rest = parts.drop_first();
        assert(parts =~= seq![x] + rest);
        lemma_join_cons(x, rest, seq!['\n']);
        assert forall|k: int| 0 <= k < rest.len() implies bare_line(#[trigger] rest[k]) by {
            assert(rest[k] == parts[k + 1]);
        }
        lemma_lines_of_joined(rest);
        let tail = join_with(rest, seq!['\n']) + seq!['\n'];
        assert(t =~= x + seq!['\n'] + tail);
        lemma_newline_at_end(x, tail);
        assert(t.take(x.len() as int) =~= x);
        assert(t.skip(x.len() as int + 1) =~= tail);
        assert(strip_cr(x) == x) by {
            if x.len() > 0 {
                assert(x.contains(x.last()));
            }
        }
    }
}

/// The lines of text without carriage returns are bare.
pub proof fn lemma_lines_of_bare(s: Seq<char>)
    requires
        !s.contains('\r'),
    ensures
        forall|k: int| 0 <= k < lines_of(s).len() ==> bare_line(#[trigger] lines_of(s)[k]),
    decreases s.len(),
{
    if s.len() > 0 {
        let p = newline_index(s);
        lemma_newline_index(s);
        if p < s.len() {
            let rest = s.skip(p + 1);
            assert(!rest.contains('\r')) by {
                if rest.contains('\r') {
                    let j = choose|j: int| 0 <= j < rest.len() && rest[j] == '\r';
                    assert(s[p + 1 + j] == '\r');
                }
            }
            lemma_lines_of_bare(rest);
            let first = strip_cr(s.take(p));
            assert(lines_of(s) == seq![first] + lines_of(rest));
            assert(bare_line(first)) by {
                assert(first =~= s.take(p));
                if first.contains('\n') {
                    let j = choose|j: int| 0 <= j < first.len() && first[j] == '\n';
                    assert(s[j] == '\n');
                }
                if first.contains('\r') {
                    let j = choose|j: int| 0 <= j < first.len() && first[j] == '\r';
                    assert(s[j] == '\r');
                }
            }
            assert forall|k: int| 0 <= k < lines_of(s).len() implies bare_line(
                #[trigger] lines_of(s)[k],
            ) by {
                if k > 0 {
                    assert(lines_of(s)[k] == lines_of(rest)[k - 1]);
                }
            }
        } else {
            assert(lines_of(s) == seq![s]);
            assert(bare_line(s)) by {
                if s.contains('\n') {
                    let j = choose|j: int| 0 <= j < s.len() && s[j] == '\n';
                }
            }
        }
    }
}

/// Text without carriage returns that ends in a line feed is its lines
/// joined by line feeds, with a final one.
pub proof fn lemma_join_lines_of(s: Seq<char>)
    requires
        !s.contains('\r'),
        s.len() > 0,
        s.last() == '\n',
    ensures
        join_with(lines_of(s), seq!['\n']) + seq!['\n'] == s,
    decreases s.len(),
{
    let p = newline_index(s);
    lemma_newline_index(s);
    if p >= s.len() {
        assert(s[s.len() - 1] == '\n');
        assert(false);
    }
    let rest = s.skip(p + 1);
    let x = s.take(p);
    assert(strip_cr(x) == x) by {
        if x.len() > 0 {
            assert(x.last() == s[p - 1]);
            assert(s.contains(s[p - 1]));
        }
    }
    assert(lines_of(s) == seq![x] + lines_of(rest));
    if rest.len() == 0 {
        assert(lines_of(rest) =~= Seq::<Seq<char>>::empty());
        assert(seq![x] + lines_of(rest) =~= seq![x]);
        assert(join_with(seq![x], seq!['\n']) == x);
        assert(x + seq!['\n'] =~= s);
    } else {
        assert(rest.last() == s.last());
        assert(!rest.contains('\r')) by {
            if rest.contains('\r') {
                let j = choose|j: int| 0 <= j < rest.len() && rest[j] == '\r';
                assert(s[p + 1 + j] == '\r');
            }
        }
        lemma_join_lines_of(rest);
        let lr = lines_of(rest);
        assert(lr.len() > 0) by {
            if lr.len() == 0 {
                assert(join_with(lr, seq!['\n']) =~= Seq::<char>::empty());
            }
        }
        lemma_join_cons(x, lr, seq!['\n']);
        assert(x + seq!['\n'] + rest =~= s);
    }
}

/// Editing a block and leaving it as it was changes nothing: splicing the
/// block's own text back over its raw lines gives the file back, for text
/// with `"\n"` line endings that ends in one, unless the block is a single
/// blank line (whose text is empty, so splicing it removes that line).
pub proof fn lemma_block_round_trip(original: Seq<char>, raw_start: int, raw_end: int)
    requires
        raw_start >= 0,
        raw_end >= 0,
        !original.contains('\r'),
        original.len() > 0,
        original.last() == '\n',
        ({
            let ls = lines_of(original);
            let n = ls.len() as int;
            let a = clamp_start(n, raw_start);
            let b = clamp_end(n, raw_start, raw_end);
            !(b == a + 1 && ls[a].len() == 0)
        }),
    ensures
        splice_text(original, raw_start, raw_end, block_text(original, raw_start, raw_end))
            == original,
{
    let ls = lines_of(original);
    let n = ls.len() as int;
    let a = clamp_start(n, raw_start);
    let b = clamp_end(n, raw_start, raw_end);
    let parts = ls.subrange(a, b);
    let t = block_text(original, raw_start, raw_end);
    lemma_lines_of_bare(original);
    assert forall|k: int| 0 <= k < parts.len() implies bare_line(#[trigger] parts[k]) by {
        assert(parts[k] == ls[a + k]);
    }
    if parts.len() == 0 {
        assert(join_with(parts, seq!['\n']) =~= Seq::<char>::empty());
        assert(lines_of(t) =~= parts);
    } else {
        let j = join_with(parts, seq!['\n']);
        assert(j.len() > 0) by {
            if parts.len() == 1 {
                assert(j == parts[0]);
            } else {
                lemma_join_cons(parts[0], parts.drop_first(), seq!['\n']);
                assert(parts =~= seq![parts[0]] + parts.drop_first());
            }
        }
        lemma_lines_of_joined(parts);
        assert(lines_of(t) == parts);
    }
    assert(ls.take(a) + parts + ls.skip(b) =~= ls);
    assert(!has_crlf(original)) by {
        if has_crlf(original) {
            let i = choose|i: int| crate::text::matches_at(original, i, seq!['\r', '\n']);
            assert(original.subrange(i, i + 2)[0] == original[i]);
        }
    }
    lemma_join_lines_of(original);
}

/// The line break of a file: `"\r\n"` or `"\n"`.
pub open spec fn line_break(crlf: bool) -> Seq<char> {
    if crlf {
        seq!['\r', '\n']
    } else {
        seq!['\n']
    }
}

/// The file made of lines `ls`, each but the last followed by the line
/// break, and the last too when `final_break` holds.
pub open spec fn file_of_lines(ls: Seq<Seq<char>>, crlf: bool, final_break: bool) -> Seq<char> {
    join_with(ls, line_break(crlf)) + if final_break {
        line_break(crlf)
    } else {
        seq![]
    }
}

/// The lines of a bare line, a line break, then more text.
proof fn lemma_first_line(x: Seq<char>, crlf: bool, tail: Seq<char>)
    requires
        bare_line(x),
    ensures
        lines_of(x + line_break(crlf) + tail) == seq![x] + lines_of(tail),
{
    let xx = if crlf {
        x + seq!['\r']
    } else {
        x
    };
    let t = x + line_break(crlf) + tail;
    assert(t =~= xx + seq!['\n'] + tail);
    assert(!xx.contains('\n')) by {
        if xx.contains('\n') {
            let j = choose|j: int| 0 <= j < xx.len() && xx[j] == '\n';
            assert(x[j] == '\n');
        }
    }
    lemma_newline_at_end(xx, tail);
    let p = xx.len() as int;
    assert(t.take(p) =~= xx);
    assert(t.skip(p + 1) =~= tail);
    if crlf {
        assert(xx.drop_last() =~= x);
    } else if x.len() > 0 {
        assert(x.contains(x.last()));
    }
    assert(strip_cr(xx) == x);
}

/// A file made of bare lines splits back into those lines, provided its
/// last line is not empty when no line break ends it.
pub proof fn lemma_lines_of_file(ls: Seq<Seq<char>>, crlf: bool, final_break: bool)
    requires
        ls.len() > 0,
        forall|k: int| 0 <= k < ls.len() ==> bare_line(#[trigger] ls[k]),
        final_break || ls.last().len() > 0,
    ensures
        lines_of(file_of_lines(ls, crlf, final_break)) == ls,
    decreases ls.len(),
{
    let x = ls[0];
    assert(bare_line(ls[0]));
    let fin = if final_break {
        line_break(crlf)
    } else {
        seq![]
    };
    if ls.len() == 1 {
        assert(join_with(ls, line_break(crlf)) == x);
        if final_break {
            lemma_first_line(x, crlf, seq![]);
            assert(x + line_break(crlf) + Seq::<char>::empty() =~= file_of_lines(ls, crlf, final_break));
            assert(lines_of(Seq::<char>::empty()) =~= Seq::<Seq<char>>::empty());
        } else {
            assert(file_of_lines(ls, crlf, final_break) =~= x);
            lemma_newline_index(x);
            if newline_index(x) < x.len() {
                assert(x.contains(x[newline_index(x)]));
            }
        }
        assert(lines_of(file_of_lines(ls, crlf, final_break)) =~= ls);
    } else {
        let rest = ls.drop_first();
        assert(ls =~= seq![x] + rest);
        lemma_join_cons(x, rest, line_break(crlf));
        assert forall|k: int| 0 <= k < rest.len() implies bare_line(#[trigger] rest[k]) by {
            assert(rest[k] == ls[k + 1]);
        }
        lemma_lines_of_file(rest, crlf, final_break);
        let tail = file_of_lines(rest, crlf, final_break);
        assert(file_of_lines(ls, crlf, final_break) =~= x + line_break(crlf) + tail);
        lemma_first_line(x, crlf, tail);
    }
}

/// Bare lines joined by `"\n"` hold no carriage return.
proof fn lemma_join_no_cr(ls: Seq<Seq<char>>)
    requires
        forall|k: int| 0 <= k < ls.len() ==> bare_line(#[trigger] ls[k]),
    ensures
        !join_with(ls, seq!['\n']).contains('\r'),
    decreases ls.len(),
{
    if ls.len() == 1 {
        assert(bare_line(ls[0]));
    } else if ls.len() > 1 {
        assert forall|k: int| 0 <= k < ls.drop_last().len() implies bare_line(
            #[trigger] ls.drop_last()[k],
        ) by {
            assert(ls.drop_last()[k] == ls[k]);
        }
        lemma_join_no_cr(ls.drop_last());
        assert(bare_line(ls[ls.len() - 1]));
        let j = join_with(ls.drop_last(), seq!['\n']);
        let all = j + seq!['\n'] + ls.last();
        if all.contains('\r') {
            let i = choose|i: int| 0 <= i < all.len() && all[i] == '\r';
            if i < j.len() {
                assert(j[i] == '\r');
            } else if i > j.len() {
                assert(ls.last()[i - j.len() - 1] == '\r');
            }
        }
    }
}

/// The separator a file of bare lines splices with is its own line break,
/// whenever it holds a line break at all.
proof fn lemma_line_sep_of_file(ls: Seq<Seq<char>>, crlf: bool, final_break: bool)
    requires
        ls.len() > 0,
        forall|k: int| 0 <= k < ls.len() ==> bare_line(#[trigger] ls[k]),
        final_break || ls.len() >= 2,
    ensures
        line_sep(file_of_lines(ls, crlf, final_break)) == line_break(crlf),
{
    let f = file_of_lines(ls, crlf, final_break);
    if crlf {
        let i: int = if final_break {
            f.len() - 2
        } else {
            join_with(ls.drop_last(), line_break(crlf)).len() as int
        };
        if !final_break {
            assert(join_with(ls, line_break(crlf)) == join_with(ls.drop_last(), line_break(crlf))
                + line_break(crlf) + ls.last());
        }
        assert(f.subrange(i, i + 2) =~= seq!['\r', '\n']);
        assert(crate::text::matches_at(f, i, seq!['\r', '\n']));
    } else {
        lemma_join_no_cr(ls);
        assert(!f.contains('\r')) by {
            if f.contains('\r') {
                let i = choose|i: int| 0 <= i < f.len() && f[i] == '\r';
                let j = join_with(ls, seq!['\n']);
                if i < j.len() {
                    assert(j[i] == '\r');
                }
            }
        }
        if has_crlf(f) {
            let i = choose|i: int| crate::text::matches_at(f, i, seq!['\r', '\n']);
            assert(f.subrange(i, i + 2)[0] == f[i]);
        }
    }
}

/// Editing a block and leaving it as it was changes nothing, in any file
/// made of lines with one line break throughout (`"\n"` or `"\r\n"`),
/// ended by one or not: splicing the block's own text back over its raw
/// lines gives the file back, unless the block is a single blank line
/// (whose text is empty, so splicing it removes that line).
pub proof fn lemma_block_round_trip_file(
    ls: Seq<Seq<char>>,
    crlf: bool,
    final_break: bool,
    raw_start: int,
    raw_end: int,
)
    requires
        raw_start >= 0,
        raw_end >= 0,
        ls.len() > 0,
        forall|k: int| 0 <= k < ls.len() ==> bare_line(#[trigger] ls[k]),
        final_break || ls.last().len() > 0,
        ({
            let n = ls.len() as int;
            let a = clamp_start(n, raw_start);
            let b = clamp_end(n, raw_start, raw_end);
            !(b == a + 1 && ls[a].len() == 0)
        }),
    ensures
        ({
            let original = file_of_lines(ls, crlf, final_break);
            splice_text(original, raw_start, raw_end, block_text(original, raw_start, raw_end))
                == original
        }),
{
    let original = file_of_lines(ls, crlf, final_break);
    lemma_lines_of_file(ls, crlf, final_break);
    assert(lines_of(original) == ls);
    let n = ls.len() as int;
    let a = clamp_start(n, raw_start);
    let b = clamp_end(n, raw_start, raw_end);
    let parts = ls.subrange(a, b);
    let t = block_text(original, raw_start, raw_end);
    assert forall|k: int| 0 <= k < parts.len() implies bare_line(#[trigger] parts[k]) by {
        assert(parts[k] == ls[a + k]);
    }
    if parts.len() == 0 {
        assert(join_with(parts, seq!['\n']) =~= Seq::<char>::empty());
        assert(lines_of(t) =~= parts);
    } else {
        let j = join_with(parts, seq!['\n']);
        assert(j.len() > 0) by {
            if parts.len() == 1 {
                assert(j == parts[0]);
            } else {
                lemma_join_cons(parts[0], parts.drop_first(), seq!['\n']);
                assert(parts =~= seq![parts[0]] + parts.drop_first());
            }
        }
        lemma_lines_of_joined(parts);
        assert(lines_of(t) == parts);
    }
    assert(ls.take(a) + parts + ls.skip(b) =~= ls);
    assert(spliced_lines(original, raw_start, raw_end, t) == ls);
    let sep = line_break(crlf);
    if final_break {
        assert(original.last() == '\n');
        lemma_line_sep_of_file(ls, crlf, final_break);
    } else {
        assert forall|k: int| 0 <= k < ls.len() implies #[trigger] no_lf(ls[k]) by {
            assert(bare_line(ls[k]));
            assert forall|m: int| 0 <= m < ls[k].len() implies ls[k][m] != '\n' by {
                if ls[k][m] == '\n' {
                    assert(ls[k].contains(ls[k][m]));
                }
            }
        }
        assert(all_no_lf(ls));
        lemma_join_ends_lf(ls, sep);
        assert(original =~= join_with(ls, sep));
        assert(trim_blank_tail(ls) == ls);
        if ls.len() >= 2 {
            lemma_line_sep_of_file(ls, crlf, final_break);
        } else {
            assert(join_with(ls, line_sep(original)) == ls[0]);
            assert(join_with(ls, sep) == ls[0]);
        }
    }
}

/// Putting a range's own lines back is a no-op: in any file made of lines
/// with one line break throughout (`"\n"` or `"\r\n"`), ended by one or
/// not, splicing raw lines `[a, b)` (a non-empty range) with those same
/// lines joined by `"\n"` and ended by one gives the file back.
pub proof fn lemma_splice_own_lines(
    ls: Seq<Seq<char>>,
    crlf: bool,
    final_break: bool,
    a: int,
    b: int,
)
    requires
        0 <= a < b <= ls.len(),
        forall|k: int| 0 <= k < ls.len() ==> bare_line(#[trigger] ls[k]),
        final_break || ls.last().len() > 0,
    ensures
        ({
            let original = file_of_lines(ls, crlf, final_break);
            splice_text(original, a, b, join_with(ls.subrange(a, b), seq!['\n']) + seq!['\n'])
                == original
        }),
{
    let original = file_of_lines(ls, crlf, final_break);
    lemma_lines_of_file(ls, crlf, final_break);
    assert(lines_of(original) == ls);
    let n = ls.len() as int;
    assert(clamp_start(n, a) == a);
    assert(clamp_end(n, a, b) == b);
    let parts = ls.subrange(a, b);
    let t = join_with(parts, seq!['\n']) + seq!['\n'];
    assert forall|k: int| 0 <= k < parts.len() implies bare_line(#[trigger] parts[k]) by {
        assert(parts[k] == ls[a + k]);
    }
    lemma_lines_of_joined(parts);
    assert(lines_of(t) == parts);
    assert(ls.take(a) + parts + ls.skip(b) =~= ls);
    assert(spliced_lines(original, a, b, t) == ls);
    let sep = line_break(crlf);
    if final_break {
        assert(original.last() == '\n');
        lemma_line_sep_of_file(ls, crlf, final_break);
    } else {
        assert forall|k: int| 0 <= k < ls.len() implies #[trigger] no_lf(ls[k]) by {
            assert(bare_line(ls[k]));
            assert forall|m: int| 0 <= m < ls[k].len() implies ls[k][m] != '\n' by {
                if ls[k][m] == '\n' {
                    assert(ls[k].contains(ls[k][m]));
                }
            }
        }
        assert(all_no_lf(ls));
        lemma_join_ends_lf(ls, sep);
        assert(original =~= join_with(ls, sep));
        assert(trim_blank_tail(ls) == ls);
        if ls.len() >= 2 {
            lemma_line_sep_of_file(ls, crlf, final_break);
        } else {
            assert(join_with(ls, line_sep(original)) == ls[0]);
            assert(join_with(ls, sep) == ls[0]);
        }
    }
}

/// The text's line breaks are all `"\r\n"` (with `crlf`) or all `"\n"`:
/// every carriage return comes right before a line feed, and a line feed
/// follows a carriage return exactly when `crlf`.
pub open spec fn uniform_breaks(s: Seq<char>, crlf: bool) -> bool {
    &&& forall|i: int| 0 <= i < s.len() && #[trigger] s[i] == '\r' ==> i + 1 < s.len() && s[i + 1]
        == '\n'
    &&& forall|i: int|
        0 <= i < s.len() && #[trigger] s[i] == '\n' ==> (crlf <==> (i > 0 && s[i - 1] == '\r'))
}

/// What follows a line feed keeps uniform line breaks.
proof fn lemma_uniform_suffix(s: Seq<char>, crlf: bool, p: int)
    requires
        uniform_breaks(s, crlf),
        0 <= p < s.len(),
        s[p] == '\n',
    ensures
        uniform_breaks(s.skip(p + 1), crlf),
{
    let rest = s.skip(p + 1);
    assert forall|i: int| 0 <= i < rest.len() && #[trigger] rest[i] == '\r' implies i + 1 < rest.len()
        && rest[i + 1] == '\n' by {
        assert(rest[i] == s[p + 1 + i]);
        assert(s[p + 1 + i + 1] == '\n');
        assert(rest[i + 1] == s[p + 1 + i + 1]);
    }
    assert forall|i: int|
        0 <= i < rest.len() && #[trigger] rest[i] == '\n' implies (crlf <==> (i > 0 && rest[i - 1]
        == '\r')) by {
        assert(rest[i] == s[p + 1 + i]);
        assert(s[p + 1 + i] == '\n');
        if i > 0 {
            assert(rest[i - 1] == s[p + i]);
        } else {
            assert(s[p] != '\r');
        }
    }
}

/// A text with uniform line breaks and no line feed is one bare line.
proof fn lemma_uniform_one_line(s: Seq<char>, crlf: bool)
    requires
        uniform_breaks(s, crlf),
        s.len() > 0,
        newline_index(s) >= s.len(),
    ensures
        lines_of(s) == seq![s],
        bare_line(s),
        !ends_with_newline(s),
{
    lemma_newline_index(s);
    if s.contains('\n') {
        let j = choose|j: int| 0 <= j < s.len() && s[j] == '\n';
    }
    if s.contains('\r') {
        let j = choose|j: int| 0 <= j < s.len() && s[j] == '\r';
        assert(s[j] == '\r');
        assert(s[j + 1] == '\n');
    }
    assert(s[s.len() - 1] != '\n');
}

/// A text with uniform line breaks is its first line (bare), its line
/// break, and the rest.
proof fn lemma_uniform_first_line(s: Seq<char>, crlf: bool)
    requires
        uniform_breaks(s, crlf),
        newline_index(s) < s.len(),
    ensures
        ({
            let p = newline_index(s);
            let x = strip_cr(s.take(p));
            &&& lines_of(s) == seq![x] + lines_of(s.skip(p + 1))
            &&& bare_line(x)
            &&& s == x + line_break(crlf) + s.skip(p + 1)
            &&& s[p] == '\n'
        }),
{
    let p = newline_index(s);
    lemma_newline_index(s);
    let raw = s.take(p);
    let x = strip_cr(raw);
    assert(s[p] == '\n');
    if crlf {
        assert(p > 0 && s[p - 1] == '\r');
        assert(x =~= s.take(p - 1));
    } else {
        if p > 0 {
            assert(raw.last() == s[p - 1]);
            assert(s[p - 1] != '\r');
        }
        assert(x == raw);
    }
    assert(bare_line(x)) by {
        if x.contains('\n') {
            let j = choose|j: int| 0 <= j < x.len() && x[j] == '\n';
            assert(s[j] == '\n');
        }
        if x.contains('\r') {
            let j = choose|j: int| 0 <= j < x.len() && x[j] == '\r';
            assert(s[j] == '\r');
            assert(s[j + 1] == '\n');
        }
    }
    assert(s =~= x + line_break(crlf) + s.skip(p + 1));
}

/// A non-empty text with uniform line breaks is the file made of its own
/// lines: they are bare, and the last is not empty unless a line break
/// ends the text.
pub proof fn lemma_uniform_file(s: Seq<char>, crlf: bool)
    requires
        uniform_breaks(s, crlf),
        s.len() > 0,
    ensures
        lines_of(s).len() > 0,
        forall|k: int| 0 <= k < lines_of(s).len() ==> bare_line(#[trigger] lines_of(s)[k]),
        ends_with_newline(s) || lines_of(s).last().len() > 0,
        s == file_of_lines(lines_of(s), crlf, ends_with_newline(s)),
    decreases s.len(),
{
    let p = newline_index(s);
    lemma_newline_index(s);
    let ls = lines_of(s);
    if p >= s.len() {
        lemma_uniform_one_line(s, crlf);
        assert(join_with(ls, line_break(crlf)) == s);
        assert(file_of_lines(ls, crlf, false) =~= s);
    } else {
        lemma_uniform_first_line(s, crlf);
        let rest = s.skip(p + 1);
        let x = strip_cr(s.take(p));
        if rest.len() == 0 {
            assert(lines_of(rest) =~= Seq::<Seq<char>>::empty());
            assert(ls =~= seq![x]);
            assert(s.last() == '\n');
            assert(join_with(ls, line_break(crlf)) == x);
            assert(file_of_lines(ls, crlf, true) =~= s);
        } else {
            lemma_uniform_suffix(s, crlf, p);
            lemma_uniform_file(rest, crlf);
            let lr = lines_of(rest);
            assert(ls =~= seq![x] + lr);
            assert(s.last() == rest.last());
            assert forall|k: int| 0 <= k < ls.len() implies bare_line(#[trigger] ls[k]) by {
                if k > 0 {
                    assert(ls[k] == lr[k - 1]);
                }
            }
            assert(ls.last() == lr.last());
            lemma_join_cons(x, lr, line_break(crlf));
            assert(file_of_lines(ls, crlf, ends_with_newline(s)) =~= x + line_break(crlf)
                + file_of_lines(lr, crlf, ends_with_newline(s)));
        }
    }
}

/// Putting a range's own lines back is a no-op, stated of the text: when
/// every carriage return comes right before a line feed and the line
/// feeds are either all or none preceded by one, splicing raw lines
/// `[a, b)` (a non-empty range) with those same lines joined by `"\n"` and
/// ended by one gives the text back, whether or not it ends in a line
/// break.
pub proof fn lemma_splice_own_lines_text(s: Seq<char>, crlf: bool, a: int, b: int)
    requires
        uniform_breaks(s, crlf),
        0 <= a < b <= lines_of(s).len(),
    ensures
        splice_text(s, a, b, join_with(lines_of(s).subrange(a, b), seq!['\n']) + seq!['\n']) == s,
{
    if s.len() == 0 {
        assert(lines_of(s).len() == 0);
    }
    lemma_uniform_file(s, crlf);
    lemma_splice_own_lines(lines_of(s), crlf, ends_with_newline(s), a, b);
}

/// Splicing replaces exactly the chosen raw lines: for text with `"\n"`
/// line endings that ends in one, and a replacement without carriage
/// returns, the lines of the result are the lines before the range, the
/// replacement's lines, and the lines after it (unless nothing at all is
/// left, which reads back as one blank line).
pub proof fn lemma_splice_replaces_lines(
    original: Seq<char>,
    raw_start: int,
    raw_end: int,
    replacement: Seq<char>,
)
    requires
        raw_start >= 0,
        raw_end >= 0,
        !original.contains('\r'),
        !replacement.contains('\r'),
        original.len() > 0,
        original.last() == '\n',
        spliced_lines(original, raw_start, raw_end, replacement).len() > 0,
    ensures
        lines_of(splice_text(original, raw_start, raw_end, replacement)) == spliced_lines(
            original,
            raw_start,
            raw_end,
            replacement,
        ),
{
    let ls = lines_of(original);
    let rs = lines_of(replacement);
    let n = ls.len() as int;
    let a = clamp_start(n, raw_start);
    let b = clamp_end(n, raw_start, raw_end);
    let parts = spliced_lines(original, raw_start, raw_end, replacement);
    lemma_lines_of_bare(original);
    lemma_lines_of_bare(replacement);
    assert forall|k: int| 0 <= k < parts.len() implies bare_line(#[trigger] parts[k]) by {
        if k < a {
            assert(parts[k] == ls[k]);
        } else if k < a + rs.len() {
            assert(parts[k] == rs[k - a]);
        } else {
            assert(parts[k] == ls[b + (k - a - rs.len())]);
        }
    }
    assert(!has_crlf(original)) by {
        if has_crlf(original) {
            let i = choose|i: int| crate::text::matches_at(original, i, seq!['\r', '\n']);
            assert(original.subrange(i, i + 2)[0] == original[i]);
        }
    }
    lemma_lines_of_joined(parts);
}

} // verus!
