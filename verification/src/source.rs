//! Where pages come from: `GraphSource` (list, read, write, walk a
//! Logseq graph), the in-memory `FakeGraphSource`, and the pure pieces of a
//! filesystem source (entry names, markdown filtering, journal ordering).
//!
//! Paths are `'/'`-separated strings.

use vstd::prelude::*;
use vstd::utf8::{decode_utf8, encode_utf8, valid_utf8};
use crate::text::{str_chars, string_from_chars, string_from_range};

verus! {

// ---------------------------------------------------------------------------
// URL decoding
// ---------------------------------------------------------------------------

/// The value of an ASCII hexadecimal digit byte.
pub open spec fn hex_val(b: u8) -> Option<u8> {
    if 0x30 <= b <= 0x39 {
        Some((b - 0x30) as u8)
    } else if 0x41 <= b <= 0x46 {
        Some((b - 0x41 + 10) as u8)
    } else if 0x61 <= b <= 0x66 {
        Some((b - 0x61 + 10) as u8)
    } else {
        None
    }
}

fn hex_value(b: u8) -> (r: Option<u8>)
    ensures
        r == hex_val(b),
{
    if 0x30 <= b && b <= 0x39 {
        Some(b - 0x30)
    } else if 0x41 <= b && b <= 0x46 {
        Some(b - 0x41 + 10)
    } else if 0x61 <= b && b <= 0x66 {
        Some(b - 0x61 + 10)
    } else {
        None
    }
}

/// The bytes of `src[i..]` with every `%` that is followed by two hex
/// digits `XY` (so the `%` is at least three bytes from the end) turned,
/// with its digits, into the byte `0xXY`; every other byte is kept.
pub open spec fn percent_decode_from(src: Seq<u8>, i: int) -> Seq<u8>
    decreases src.len() - i,
{
    if i < 0 || i >= src.len() {
        seq![]
    } else if src[i] == 0x25 && i + 2 < src.len() && hex_val(src[i + 1]) is Some && hex_val(
        src[i + 2],
    ) is Some {
        seq![((hex_val(src[i + 1])->0 as int) * 16 + hex_val(src[i + 2])->0 as int) as u8]
            + percent_decode_from(src, i + 3)
    } else {
        seq![src[i]] + percent_decode_from(src, i + 1)
    }
}

/// The text `String::from_utf8_lossy` makes of `bytes`.
pub uninterp spec fn utf8_lossy(bytes: Seq<u8>) -> Seq<char>;

/// `String::from_utf8_lossy(..).into_owned()`: the result is
/// `utf8_lossy(bytes)`, and, as its documentation says, valid UTF-8 comes
/// back unchanged. How invalid sequences are replaced is not restated.
#[verifier::external_body]
fn from_utf8_lossy(bytes: &[u8]) -> (r: String)
    ensures
        r@ == utf8_lossy(bytes@),
        valid_utf8(bytes@) ==> r@ == decode_utf8(bytes@),
{
    String::from_utf8_lossy(bytes).into_owned()
}

/// A URL-decoded name: percent escapes in the UTF-8 bytes of `s` decoded,
/// then the bytes read back as UTF-8 (lossily).
pub open spec fn url_decoded(s: Seq<char>) -> Seq<char> {
    utf8_lossy(percent_decode_from(encode_utf8(s), 0))
}

/// No byte of a character's UTF-8 encoding is `%` (0x25) unless the
/// character is `%` itself: multi-byte encodings use only bytes from 0x80.
proof fn lemma_scalar_no_percent(v: u32)
    requires
        v != 0x25,
    ensures
        forall|k: int|
            0 <= k < vstd::utf8::encode_scalar(v).len() ==> vstd::utf8::encode_scalar(v)[k] != 0x25u8,
{
    assert(v <= 0x7f && v != 0x25 ==> (v & 0x7f) as u8 != 0x25u8) by (bit_vector);
    assert((0xC0u8 | ((v >> 6) & 0x1F) as u8) != 0x25u8) by (bit_vector);
    assert((0xE0u8 | ((v >> 12) & 0x0F) as u8) != 0x25u8) by (bit_vector);
    assert((0xF0u8 | ((v >> 18) & 0x7) as u8) != 0x25u8) by (bit_vector);
    assert((0x80u8 | (v & 0x3F) as u8) != 0x25u8) by (bit_vector);
    assert((0x80u8 | ((v >> 6) & 0x3F) as u8) != 0x25u8) by (bit_vector);
    assert((0x80u8 | ((v >> 12) & 0x3F) as u8) != 0x25u8) by (bit_vector);
}

/// Text without `%` encodes to bytes without `%`.
pub proof fn lemma_encode_no_percent(s: Seq<char>)
    requires
        !s.contains('%'),
    ensures
        forall|k: int| 0 <= k < encode_utf8(s).len() ==> encode_utf8(s)[k] != 0x25u8,
    decreases s.len(),
{
    broadcast use vstd::utf8::char_u32_cast;

    if s.len() > 0 {
        let c = s[0];
        assert(c != '%');
        vstd::utf8::char_u32_cast(c, c as u32);
        vstd::utf8::char_u32_cast('%', '%' as u32);
        assert(c as u32 != 0x25);
        lemma_scalar_no_percent(c as u32);
        let rest = s.drop_first();
        assert forall|k: int| 0 <= k < rest.len() implies rest[k] != '%' by {
            assert(rest[k] == s[k + 1]);
        }
        lemma_encode_no_percent(rest);
        let head = vstd::utf8::encode_scalar(c as u32);
        let e = encode_utf8(s);
        assert(e == head + encode_utf8(rest));
        assert forall|k: int| 0 <= k < e.len() implies e[k] != 0x25u8 by {
            if k < head.len() {
                assert(e[k] == head[k]);
            } else {
                assert(e[k] == encode_utf8(rest)[k - head.len()]);
            }
        }
    }
}

/// Bytes without `%` are left as they are by percent decoding.
pub proof fn lemma_percent_decode_plain(src: Seq<u8>, i: int)
    requires
        0 <= i <= src.len(),
        forall|k: int| i <= k < src.len() ==> src[k] != 0x25u8,
    ensures
        percent_decode_from(src, i) == src.skip(i),
    decreases src.len() - i,
{
    if i < src.len() {
        lemma_percent_decode_plain(src, i + 1);
        assert(src.skip(i) =~= seq![src[i]] + src.skip(i + 1));
    } else {
        assert(src.skip(i) =~= Seq::<u8>::empty());
    }
}

/// URL decode a string, handling percent-encoded characters. A name
/// without `%` comes back unchanged, and when the decoded bytes are valid
/// UTF-8 the result is exactly their decoding (`%E3%81%82` gives `あ`).
pub fn url_decode(s: &str) -> (r: String)
    ensures
        r@ == url_decoded(s@),
        !s@.contains('%') ==> r@ == s@,
        valid_utf8(percent_decode_from(encode_utf8(s@), 0)) ==> r@ == decode_utf8(
            percent_decode_from(encode_utf8(s@), 0),
        ),
{
    let src = s.as_bytes();
    let n = src.len();
    let mut buf: Vec<u8> = Vec::new();
    let mut i: usize = 0;
    while i < n
        invariant
            i <= n,
            n == src@.len(),
            src@ == encode_utf8(s@),
            buf@ + percent_decode_from(src@, i as int) == percent_decode_from(src@, 0),
        decreases n - i,
    {
        let ghost before = buf@;
        if src[i] == 0x25 && n - i > 2 {
            let hi = hex_value(src[i + 1]);
            let lo = hex_value(src[i + 2]);
            if let (Some(h), Some(l)) = (hi, lo) {
                buf.push(h * 16 + l);
                assert(buf@ + percent_decode_from(src@, i + 3) =~= before + percent_decode_from(
                    src@,
                    i as int,
                ));
                i = i + 3;
                continue;
            }
        }
        buf.push(src[i]);
        assert(buf@ + percent_decode_from(src@, i + 1) =~= before + percent_decode_from(
            src@,
            i as int,
        ));
        i = i + 1;
    }
    assert(buf@ + percent_decode_from(src@, i as int) =~= buf@);
    proof {
        if !s@.contains('%') {
            lemma_encode_no_percent(s@);
            lemma_percent_decode_plain(src@, 0);
            assert(src@.skip(0) =~= src@);
            vstd::utf8::encode_utf8_valid_utf8(s@);
            vstd::utf8::encode_utf8_decode_utf8(s@);
        }
    }
    from_utf8_lossy(buf.as_slice())
}

// ---------------------------------------------------------------------------
// Paths
// ---------------------------------------------------------------------------

/// Index of the last `'/'` in `p`, or -1.
pub open spec fn last_slash(p: Seq<char>) -> int
    decreases p.len(),
{
    if p.len() == 0 {
        -1
    } else if p.last() == '/' {
        p.len() - 1
    } else {
        last_slash(p.drop_last())
    }
}

pub proof fn lemma_last_slash(p: Seq<char>)
    ensures
        -1 <= last_slash(p) < p.len(),
        last_slash(p) >= 0 ==> p[last_slash(p)] == '/',
        forall|k: int| last_slash(p) < k < p.len() ==> p[k] != '/',
    decreases p.len(),
{
    if p.len() > 0 && p.last() != '/' {
        lemma_last_slash(p.drop_last());
        assert forall|k: int| last_slash(p) < k < p.len() implies p[k] != '/' by {
            if k < p.len() - 1 {
                assert(p[k] == p.drop_last()[k]);
            }
        }
    }
}

/// The last component of a `'/'`-separated path, as `Path::file_name`
/// finds it on Unix: trailing separators and `.` components are skipped; a
/// path ending in `..`, or with no such component, has none.
pub open spec fn file_name_of(p: Seq<char>) -> Option<Seq<char>>
    decreases p.len(),
{
    if p.len() == 0 {
        None
    } else if p.last() == '/' {
        file_name_of(p.drop_last())
    } else {
        let k = last_slash(p);
        proof {
            lemma_last_slash(p);
        }
        let comp = p.subrange(k + 1, p.len() as int);
        if comp == seq!['.'] {
            if k < 0 {
                None
            } else {
                file_name_of(p.take(k))
            }
        } else if comp == seq!['.', '.'] {
            None
        } else {
            Some(comp)
        }
    }
}

/// Index of the last `'.'` in `s`, or -1.
pub open spec fn last_dot(s: Seq<char>) -> int
    decreases s.len(),
{
    if s.len() == 0 {
        -1
    } else if s.last() == '.' {
        s.len() - 1
    } else {
        last_dot(s.drop_last())
    }
}

pub proof fn lemma_last_dot(s: Seq<char>)
    ensures
        -1 <= last_dot(s) < s.len(),
        last_dot(s) >= 0 ==> s[last_dot(s)] == '.',
        forall|k: int| last_dot(s) < k < s.len() ==> s[k] != '.',
    decreases s.len(),
{
    if s.len() > 0 && s.last() != '.' {
        lemma_last_dot(s.drop_last());
        assert forall|k: int| last_dot(s) < k < s.len() implies s[k] != '.' by {
            if k < s.len() - 1 {
                assert(s[k] == s.drop_last()[k]);
            }
        }
    }
}

/// The stem of a file name (`Path::file_stem`): the part before its last
/// `'.'`, unless that dot is the first character or there is none.
pub open spec fn stem_of(name: Seq<char>) -> Seq<char> {
    let k = last_dot(name);
    if k > 0 {
        name.take(k)
    } else {
        name
    }
}

/// The extension of a file name (`Path::extension`): what follows its last
/// `'.'`, unless that dot is the first character or there is none.
pub open spec fn extension_of(name: Seq<char>) -> Option<Seq<char>> {
    let k = last_dot(name);
    if k > 0 {
        Some(name.skip(k + 1))
    } else {
        None
    }
}

/// `Path::file_stem` of a `'/'`-separated path.
pub open spec fn file_stem_of(p: Seq<char>) -> Option<Seq<char>> {
    match file_name_of(p) {
        Some(n) => Some(stem_of(n)),
        None => None,
    }
}

fn last_index_of(v: &[char], end: usize, c: char) -> (r: Option<usize>)
    requires
        end <= v@.len(),
    ensures
        c == '/' ==> (r matches Some(k) ==> last_slash(v@.take(end as int)) == k) && (r is None
            ==> last_slash(v@.take(end as int)) == -1),
        c == '.' ==> (r matches Some(k) ==> last_dot(v@.take(end as int)) == k) && (r is None
            ==> last_dot(v@.take(end as int)) == -1),
        r matches Some(k) ==> k < end,
{
    let mut j: usize = end;
    while j > 0
        invariant
            j <= end <= v@.len(),
            forall|k: int| j <= k < end ==> v@[k] != c,
            c == '/' ==> last_slash(v@.take(end as int)) == last_slash(v@.take(j as int)),
            c == '.' ==> last_dot(v@.take(end as int)) == last_dot(v@.take(j as int)),
        decreases j,
    {
        assert(v@.take(j as int).drop_last() =~= v@.take(j - 1));
        if v[j - 1] == c {
            return Some(j - 1);
        }
        j = j - 1;
    }
    None
}

fn chars_eq(v: &[char], a: usize, b: usize, lit: &[char]) -> (r: bool)
    requires
        a <= b <= v@.len(),
    ensures
        r == (v@.subrange(a as int, b as int) == lit@),
{
    if b - a != lit.len() {
        return false;
    }
    let mut k: usize = 0;
    while k < lit.len()
        invariant
            a <= b <= v@.len(),
            b - a == lit@.len(),
            k <= lit@.len(),
            forall|m: int| 0 <= m < k ==> v@[a + m] == lit@[m],
        decreases lit@.len() - k,
    {
        if v[a + k] != lit[k] {
            assert(v@.subrange(a as int, b as int)[k as int] != lit@[k as int]);
            return false;
        }
        k = k + 1;
    }
    assert(v@.subrange(a as int, b as int) =~= lit@);
    true
}

/// The last component of path `p` (characters), as a character range.
fn file_name_range(p: &[char]) -> (r: Option<(usize, usize)>)
    ensures
        r matches Some((a, b)) ==> a <= b <= p@.len() && file_name_of(p@) == Some(
            p@.subrange(a as int, b as int),
        ),
        r is None ==> file_name_of(p@) is None,
{
    let mut end: usize = p.len();
    assert(p@.take(end as int) =~= p@);
    loop
        invariant
            end <= p@.len(),
            file_name_of(p@) == file_name_of(p@.take(end as int)),
        decreases end,
    {
        let ghost q = p@.take(end as int);
        if end == 0 {
            return None;
        }
        if p[end - 1] == '/' {
            assert(q.drop_last() =~= p@.take(end - 1));
            end = end - 1;
            continue;
        }
        let k = last_index_of(p, end, '/');
        let a = match k {
            Some(x) => x + 1,
            None => 0,
        };
        proof {
            lemma_last_slash(q);
            assert(q.subrange(last_slash(q) + 1, q.len() as int) =~= p@.subrange(
                a as int,
                end as int,
            ));
        }
        if chars_eq(p, a, end, ['.'].as_slice()) {
            assert(['.']@ =~= seq!['.']);
            match k {
                None => {
                    return None;
                },
                Some(x) => {
                    assert(q.take(x as int) =~= p@.take(x as int));
                    end = x;
                    continue;
                },
            }
        }
        assert(['.']@ =~= seq!['.']);
        if chars_eq(p, a, end, ['.', '.'].as_slice()) {
            assert(['.', '.']@ =~= seq!['.', '.']);
            return None;
        }
        assert(['.', '.']@ =~= seq!['.', '.']);
        return Some((a, end));
    }
}

/// `Path::file_stem` of a path string.
pub fn file_stem(p: &str) -> (r: Option<String>)
    ensures
        r matches Some(s) ==> file_stem_of(p@) == Some(s@),
        r is None ==> file_stem_of(p@) is None,
{
    let cs = str_chars(p);
    match file_name_range(cs.as_slice()) {
        None => None,
        Some((a, b)) => {
            let ghost name = cs@.subrange(a as int, b as int);
            let name_v = {
                let mut v: Vec<char> = Vec::new();
                let mut q: usize = a;
                while q < b
                    invariant
                        a <= q <= b <= cs@.len(),
                        v@ == cs@.subrange(a as int, q as int),
                    decreases b - q,
                {
                    v.push(cs[q]);
                    q = q + 1;
                    assert(v@ =~= cs@.subrange(a as int, q as int));
                }
                v
            };
            assert(name_v@.take(name_v@.len() as int) =~= name_v@);
            let d = last_index_of(name_v.as_slice(), name_v.len(), '.');
            match d {
                Some(k) => {
                    if k > 0 {
                        assert(name_v@.take(k as int) =~= name_v@.subrange(0, k as int));
                        Some(string_from_range(name_v.as_slice(), 0, k))
                    } else {
                        Some(string_from_chars(name_v.as_slice()))
                    }
                },
                None => Some(string_from_chars(name_v.as_slice())),
            }
        },
    }
}

/// Whether a path names a markdown file (its extension is `md`).
pub fn is_markdown_path(p: &str) -> (r: bool)
    ensures
        r == (match file_name_of(p@) {
            Some(n) => extension_of(n) == Some(seq!['m', 'd']),
            None => false,
        }),
{
    let cs = str_chars(p);
    match file_name_range(cs.as_slice()) {
        None => false,
        Some((a, b)) => {
            let mut v: Vec<char> = Vec::new();
            let mut q: usize = a;
            while q < b
                invariant
                    a <= q <= b <= cs@.len(),
                    v@ == cs@.subrange(a as int, q as int),
                decreases b - q,
            {
                v.push(cs[q]);
                q = q + 1;
                assert(v@ =~= cs@.subrange(a as int, q as int));
            }
            assert(v@.take(v@.len() as int) =~= v@);
            match last_index_of(v.as_slice(), v.len(), '.') {
                Some(k) => {
                    if k > 0 {
                        assert(v@.skip(k + 1) =~= v@.subrange(k + 1, v@.len() as int));
                        let r = chars_eq(v.as_slice(), k + 1, v.len(), ['m', 'd'].as_slice());
                        assert(['m', 'd']@ =~= seq!['m', 'd']);
                        r
                    } else {
                        false
                    }
                },
                None => false,
            }
        },
    }
}

/// A directory entry name that a graph listing skips: a dotfile or the
/// `bak` backup folder.
pub open spec fn is_hidden_name(name: Seq<char>) -> bool {
    (name.len() > 0 && name[0] == '.') || name == seq!['b', 'a', 'k']
}

/// Executable `is_hidden_name`.
pub fn is_hidden_entry_name(name: &str) -> (r: bool)
    ensures
        r == is_hidden_name(name@),
{
    let cs = str_chars(name);
    if cs.len() > 0 && cs[0] == '.' {
        return true;
    }
    let r = chars_eq(cs.as_slice(), 0, cs.len(), ['b', 'a', 'k'].as_slice());
    assert(['b', 'a', 'k']@ =~= seq!['b', 'a', 'k']);
    assert(cs@.subrange(0, cs@.len() as int) =~= cs@);
    r
}

// ---------------------------------------------------------------------------
// Entries and their order
// ---------------------------------------------------------------------------

/// One child of a directory in a graph listing.
pub struct Entry {
    pub path: String,
    pub name: String,
    pub is_dir: bool,
}

/// An `Entry` with its strings as character sequences.
pub struct EntryView {
    pub path: Seq<char>,
    pub name: Seq<char>,
    pub is_dir: bool,
}

impl View for Entry {
    type V = EntryView;

    open spec fn view(&self) -> EntryView {
        EntryView { path: self.path@, name: self.name@, is_dir: self.is_dir }
    }
}

/// The views of a sequence of entries.
pub open spec fn entries_view(v: Seq<Entry>) -> Seq<EntryView> {
    v.map_values(|e: Entry| e@)
}

/// An exact copy of an entry.
pub fn copy_entry(e: &Entry) -> (r: Entry)
    ensures
        r@ == e@,
{
    Entry { path: e.path.clone(), name: e.name.clone(), is_dir: e.is_dir }
}

/// Strict lexicographic order of names by code point, which is how
/// `String`'s `Ord` orders them (UTF-8 byte order is code point order).
pub open spec fn name_lt(a: Seq<char>, b: Seq<char>) -> bool
    decreases a.len(),
{
    if b.len() == 0 {
        false
    } else if a.len() == 0 {
        true
    } else if (a[0] as u32) < (b[0] as u32) {
        true
    } else if (a[0] as u32) > (b[0] as u32) {
        false
    } else {
        name_lt(a.drop_first(), b.drop_first())
    }
}

/// `name_lt` is a strict total order.
pub proof fn lemma_name_lt_order(a: Seq<char>, b: Seq<char>, c: Seq<char>)
    ensures
        !name_lt(a, a),
        name_lt(a, b) && name_lt(b, c) ==> name_lt(a, c),
        a != b ==> name_lt(a, b) || name_lt(b, a),
    decreases a.len(),
{
    broadcast use vstd::utf8::char_u32_cast;

    if a.len() > 0 {
        lemma_name_lt_order(a.drop_first(), b.drop_first(), c.drop_first());
        if b.len() > 0 && a != b && (a[0] as u32) == (b[0] as u32) {
            vstd::utf8::char_u32_cast(a[0], a[0] as u32);
            vstd::utf8::char_u32_cast(b[0], b[0] as u32);
            assert(a[0] == b[0]);
            if a.drop_first() == b.drop_first() {
                assert(a =~= seq![a[0]] + a.drop_first());
                assert(b =~= seq![b[0]] + b.drop_first());
            }
        }
    } else {
        if b.len() == 0 {
            assert(a =~= b);
        }
    }
}

/// `a` comes strictly before `b`: by ascending name, or by descending name
/// when `desc`.
pub open spec fn precedes(a: EntryView, b: EntryView, desc: bool) -> bool {
    if desc {
        name_lt(b.name, a.name)
    } else {
        name_lt(a.name, b.name)
    }
}

/// Entries ordered by name (no entry before one it should follow).
pub open spec fn sorted_entries(s: Seq<EntryView>, desc: bool) -> bool {
    forall|i: int, j: int| 0 <= i < j < s.len() ==> !precedes(#[trigger] s[j], #[trigger] s[i], desc)
}

/// The entries of `s` named `n`, in order.
pub open spec fn with_name(s: Seq<EntryView>, n: Seq<char>) -> Seq<EntryView> {
    s.filter(|e: EntryView| e.name == n)
}

/// `out` is `inp` stably sorted by name: sorted, and for every name the
/// entries with that name in the same order (which determines `out`).
pub open spec fn stable_sort_of(out: Seq<EntryView>, inp: Seq<EntryView>, desc: bool) -> bool {
    &&& sorted_entries(out, desc)
    &&& forall|n: Seq<char>| #[trigger] with_name(out, n) == with_name(inp, n)
}

proof fn lemma_no_name_filter(s: Seq<EntryView>, n: Seq<char>)
    requires
        forall|k: int| 0 <= k < s.len() ==> s[k].name != n,
    ensures
        with_name(s, n) == Seq::<EntryView>::empty(),
    decreases s.len(),
{
    reveal(Seq::filter);
    if s.len() > 0 {
        lemma_no_name_filter(s.drop_last(), n);
        assert(s.drop_last().filter(|e: EntryView| e.name == n) == with_name(s.drop_last(), n));
    }
}

proof fn lemma_insert_sorted(s: Seq<EntryView>, x: EntryView, p: int, desc: bool)
    requires
        sorted_entries(s, desc),
        0 <= p <= s.len(),
        forall|k: int| 0 <= k < p ==> !precedes(x, s[k], desc),
        p < s.len() ==> precedes(x, s[p], desc),
    ensures
        sorted_entries(s.insert(p, x), desc),
        forall|n: Seq<char>|
            #[trigger] with_name(s.insert(p, x), n) == if x.name == n {
                with_name(s, n).push(x)
            } else {
                with_name(s, n)
            },
{
    broadcast use vstd::seq_lib::group_seq_lib_default;

    let t = s.insert(p, x);
    assert forall|i: int, j: int| 0 <= i < j < t.len() implies !precedes(
        #[trigger] t[j],
        #[trigger] t[i],
        desc,
    ) by {
        if j < p {
            assert(t[i] == s[i] && t[j] == s[j]);
        } else if j == p {
            assert(t[i] == s[i]);
        } else if i == p {
            assert(t[j] == s[j - 1]);
            lemma_name_lt_order(x.name, s[p].name, s[j - 1].name);
            lemma_name_lt_order(s[j - 1].name, x.name, s[p].name);
            lemma_name_lt_order(s[p].name, x.name, s[j - 1].name);
            lemma_name_lt_order(x.name, s[j - 1].name, s[p].name);
            if j - 1 > p {
                assert(!precedes(s[j - 1], s[p], desc));
            }
        } else if i < p {
            assert(t[i] == s[i] && t[j] == s[j - 1]);
        } else {
            assert(t[i] == s[i - 1] && t[j] == s[j - 1]);
        }
    }
    assert(t =~= s.take(p) + seq![x] + s.skip(p));
    assert(s =~= s.take(p) + s.skip(p));
    assert forall|n: Seq<char>| #[trigger] with_name(t, n) == if x.name == n {
        with_name(s, n).push(x)
    } else {
        with_name(s, n)
    } by {
        let pred = |e: EntryView| e.name == n;
        assert(with_name(t, n) == (s.take(p) + seq![x]).filter(pred) + s.skip(p).filter(pred));
        assert((s.take(p) + seq![x]).filter(pred) == s.take(p).filter(pred) + seq![x].filter(
            pred,
        ));
        assert(with_name(s, n) == s.take(p).filter(pred) + s.skip(p).filter(pred));
        reveal_with_fuel(Seq::filter, 2);
        assert(seq![x].drop_last() =~= Seq::<EntryView>::empty());
        if x.name == n {
            assert forall|k: int| 0 <= k < s.skip(p).len() implies s.skip(p)[k].name != n by {
                let y = s[p + k];
                assert(s.skip(p)[k] == y);
                lemma_name_lt_order(x.name, s[p].name, y.name);
                lemma_name_lt_order(y.name, s[p].name, x.name);
                lemma_name_lt_order(s[p].name, y.name, x.name);
                lemma_name_lt_order(x.name, y.name, s[p].name);
                if k > 0 {
                    assert(!precedes(y, s[p], desc));
                }
            }
            lemma_no_name_filter(s.skip(p), n);
            assert(seq![x].filter(pred) =~= seq![x]);
            assert(with_name(t, n) =~= with_name(s, n).push(x));
        } else {
            assert(seq![x].filter(pred) =~= Seq::<EntryView>::empty());
            assert(with_name(t, n) =~= with_name(s, n));
        }
    }
}

fn chars_lt(a: &[char], b: &[char]) -> (r: bool)
    ensures
        r == name_lt(a@, b@),
{
    let mut k: usize = 0;
    assert(a@.skip(0) =~= a@ && b@.skip(0) =~= b@);
    loop
        invariant
            k <= a@.len(),
            k <= b@.len(),
            name_lt(a@, b@) == name_lt(a@.skip(k as int), b@.skip(k as int)),
        decreases a@.len() - k,
    {
        let ghost sa = a@.skip(k as int);
        let ghost sb = b@.skip(k as int);
        if k == b.len() {
            return false;
        }
        if k == a.len() {
            return true;
        }
        assert(sa[0] == a@[k as int] && sb[0] == b@[k as int]);
        if (a[k] as u32) < (b[k] as u32) {
            return true;
        }
        if (a[k] as u32) > (b[k] as u32) {
            return false;
        }
        assert(sa.drop_first() =~= a@.skip(k + 1));
        assert(sb.drop_first() =~= b@.skip(k + 1));
        k = k + 1;
    }
}

fn entry_precedes(a: &Entry, b: &Entry, desc: bool) -> (r: bool)
    ensures
        r == precedes(a@, b@, desc),
{
    let an = str_chars(a.name.as_str());
    let bn = str_chars(b.name.as_str());
    if desc {
        chars_lt(bn.as_slice(), an.as_slice())
    } else {
        chars_lt(an.as_slice(), bn.as_slice())
    }
}

/// The first position at or after `p` whose entry `x` precedes, or the
/// length of `s` when there is none.
pub open spec fn first_successor(s: Seq<EntryView>, x: EntryView, desc: bool, p: int) -> int
    decreases s.len() - p,
{
    if p >= s.len() {
        s.len() as int
    } else if precedes(x, s[p], desc) {
        p
    } else {
        first_successor(s, x, desc, p + 1)
    }
}

/// Insertion sort by name: each entry in turn goes before the first entry
/// it precedes.
pub open spec fn sorted_by_name(s: Seq<EntryView>, desc: bool) -> Seq<EntryView>
    decreases s.len(),
{
    if s.len() == 0 {
        s
    } else {
        let t = sorted_by_name(s.drop_last(), desc);
        t.insert(first_successor(t, s.last(), desc, 0), s.last())
    }
}

proof fn lemma_first_successor(s: Seq<EntryView>, x: EntryView, desc: bool, q: int, p: int)
    requires
        0 <= q <= p <= s.len(),
        p == s.len() || precedes(x, s[p], desc),
        forall|k: int| 0 <= k < p ==> !precedes(x, s[k], desc),
    ensures
        first_successor(s, x, desc, q) == p,
    decreases p - q,
{
    if q < p {
        lemma_first_successor(s, x, desc, q + 1, p);
    }
}

proof fn lemma_first_successor_props(s: Seq<EntryView>, x: EntryView, desc: bool, p: int)
    requires
        0 <= p <= s.len(),
        forall|k: int| 0 <= k < p ==> !precedes(x, s[k], desc),
    ensures
        0 <= first_successor(s, x, desc, p) <= s.len(),
        forall|k: int| 0 <= k < first_successor(s, x, desc, p) ==> !precedes(x, s[k], desc),
        first_successor(s, x, desc, p) < s.len() ==> precedes(
            x,
            s[first_successor(s, x, desc, p)],
            desc,
        ),
    decreases s.len() - p,
{
    if p < s.len() && !precedes(x, s[p], desc) {
        lemma_first_successor_props(s, x, desc, p + 1);
    }
}

/// Insertion sort by name is a stable sort: its result is ordered by name
/// and holds, for every name, the entries with that name in their order.
pub proof fn lemma_sorted_by_name(s: Seq<EntryView>, desc: bool)
    ensures
        stable_sort_of(sorted_by_name(s, desc), s, desc),
    decreases s.len(),
{
    if s.len() == 0 {
        assert forall|n: Seq<char>| #[trigger] with_name(sorted_by_name(s, desc), n) == with_name(s, n) by {
            assert(sorted_by_name(s, desc) == s);
        }
    } else {
        let prev = s.drop_last();
        lemma_sorted_by_name(prev, desc);
        let t = sorted_by_name(prev, desc);
        let x = s.last();
        lemma_first_successor_props(t, x, desc, 0);
        let p = first_successor(t, x, desc, 0);
        lemma_insert_sorted(t, x, p, desc);
        assert(s =~= prev.push(x));
        assert forall|n: Seq<char>| #[trigger] with_name(sorted_by_name(s, desc), n) == with_name(s, n) by {
            Seq::lemma_filter_push(prev, x, |e: EntryView| e.name == n);
            assert(with_name(t, n) == with_name(prev, n));
        }
    }
}

/// Stably sorts entries by name, ascending, or descending when `desc`
/// (how the journals directory is listed: newest date first).
pub fn sort_entries(entries: &Vec<Entry>, desc: bool) -> (r: Vec<Entry>)
    ensures
        stable_sort_of(entries_view(r@), entries_view(entries@), desc),
        entries_view(r@) == sorted_by_name(entries_view(entries@), desc),
{
    let ghost inp = entries_view(entries@);
    let mut out: Vec<Entry> = Vec::new();
    let mut i: usize = 0;
    assert(inp.take(0) =~= Seq::<EntryView>::empty());
    assert(entries_view(out@) =~= Seq::<EntryView>::empty());
    while i < entries.len()
        invariant
            i <= entries@.len(),
            inp == entries_view(entries@),
            sorted_entries(entries_view(out@), desc),
            entries_view(out@) == sorted_by_name(inp.take(i as int), desc),
            forall|n: Seq<char>| #[trigger]
                with_name(entries_view(out@), n) == with_name(inp.take(i as int), n),
        decreases entries@.len() - i,
    {
        let x = copy_entry(&entries[i]);
        let mut p: usize = 0;
        while p < out.len() && !entry_precedes(&x, &out[p], desc)
            invariant
                p <= out@.len(),
                forall|k: int| 0 <= k < p ==> !precedes(x@, out@[k]@, desc),
            decreases out@.len() - p,
        {
            p = p + 1;
        }
        let ghost s = entries_view(out@);
        proof {
            assert forall|k: int| 0 <= k < p implies !precedes(x@, s[k], desc) by {
                assert(s[k] == out@[k]@);
            }
            if p < out@.len() {
                assert(s[p as int] == out@[p as int]@);
            }
            lemma_insert_sorted(s, x@, p as int, desc);
            lemma_first_successor(s, x@, desc, 0, p as int);
            assert(inp.take(i + 1).drop_last() =~= inp.take(i as int));
            assert(inp.take(i + 1).last() == x@);
        }
        out.insert(p, x);
        proof {
            assert(entries_view(out@) =~= s.insert(p as int, x@));
            assert(inp.take(i + 1) =~= inp.take(i as int).push(inp[i as int]));
            assert forall|n: Seq<char>| #[trigger]
                with_name(entries_view(out@), n) == with_name(inp.take(i + 1), n) by {
                Seq::lemma_filter_push(
                    inp.take(i as int),
                    inp[i as int],
                    |e: EntryView| e.name == n,
                );
            }
        }
        i = i + 1;
    }
    assert(inp.take(entries@.len() as int) =~= inp);
    out
}

// ---------------------------------------------------------------------------
// The graph source
// ---------------------------------------------------------------------------

/// Why a graph source could not answer.
#[derive(Debug, Clone, PartialEq, Eq)]
pub enum SourceError {
    /// No file or directory at this path.
    NotFound(String),
    /// The underlying storage failed, with its message.
    Io(String),
}

/// Where the graph's pages come from. The app reaches storage only through
/// this trait: `FakeGraphSource` keeps a graph in memory, and the program
/// supplies one backed by the filesystem.
///
/// Each implementation may say, through the three predicates, what its
/// answers can be; the methods promise only that a successful answer is
/// one of those. By default every answer can be, as for storage that
/// others may change between calls.
pub trait GraphSource {
    /// Reading file `path` may give `content`.
    open spec fn reads(&self, path: Seq<char>, content: Seq<char>) -> bool {
        true
    }

    /// Listing directory `dir` may give `entries`, in that order.
    open spec fn lists(&self, dir: Seq<char>, entries: Seq<EntryView>) -> bool {
        true
    }

    /// Collecting the markdown files under `root` may give `files`, in
    /// that order.
    open spec fn lists_all(&self, root: Seq<char>, files: Seq<Seq<char>>) -> bool {
        true
    }

    /// The children of directory `dir`, in listing order.
    fn children(&self, dir: &str) -> (r: Result<Vec<Entry>, SourceError>)
        ensures
            r matches Ok(v) ==> self.lists(dir@, entries_view(v@)),
    ;

    /// The content of file `path`.
    fn read(&self, path: &str) -> (r: Result<String, SourceError>)
        ensures
            r matches Ok(c) ==> self.reads(path@, c@),
    ;

    /// Writes `contents` to `path`, overwriting any existing content; once
    /// it succeeds, reading `path` may give `contents`.
    fn write(&mut self, path: &str, contents: &str) -> (r: Result<(), SourceError>)
        ensures
            r is Ok ==> final(self).reads(path@, contents@),
    ;

    /// Every markdown file under `root`, recursively (unlike `children`,
    /// which lists one level).
    fn all_files(&self, root: &str) -> (r: Result<Vec<String>, SourceError>)
        ensures
            r matches Ok(v) ==> self.lists_all(root@, paths_view(v@)),
    ;
}

/// Index of the first pair whose key is `k`, or -1.
pub open spec fn key_index<V>(list: Seq<(Seq<char>, V)>, k: Seq<char>) -> int
    decreases list.len(),
{
    if list.len() == 0 {
        -1
    } else if list[0].0 == k {
        0
    } else {
        let r = key_index(list.drop_first(), k);
        if r < 0 {
            -1
        } else {
            r + 1
        }
    }
}

pub proof fn lemma_key_index<V>(list: Seq<(Seq<char>, V)>, k: Seq<char>)
    ensures
        -1 <= key_index(list, k) < list.len(),
        key_index(list, k) >= 0 ==> list[key_index(list, k)].0 == k,
        forall|j: int| 0 <= j < list.len() && (key_index(list, k) < 0 || j < key_index(list, k))
            ==> list[j].0 != k,
    decreases list.len(),
{
    if list.len() > 0 && list[0].0 != k {
        lemma_key_index(list.drop_first(), k);
        assert forall|j: int|
            0 <= j < list.len() && (key_index(list, k) < 0 || j < key_index(list, k)) implies list[j].0
            != k by {
            if j > 0 {
                assert(list[j] == list.drop_first()[j - 1]);
            }
        }
    }
}

/// The value stored under key `k` (the first pair with that key).
pub open spec fn lookup<V>(list: Seq<(Seq<char>, V)>, k: Seq<char>) -> Option<V> {
    let i = key_index(list, k);
    if i < 0 {
        None
    } else {
        Some(list[i].1)
    }
}

/// `list` with `k` mapped to `v`: the pair replaced in place when the key
/// is present, appended otherwise (`HashMap::insert`).
pub open spec fn assoc_set<V>(list: Seq<(Seq<char>, V)>, k: Seq<char>, v: V) -> Seq<
    (Seq<char>, V),
> {
    let i = key_index(list, k);
    if i < 0 {
        list.push((k, v))
    } else {
        list.update(i, (k, v))
    }
}

/// What is stored under a key right after setting it, and under any other
/// key, is what a map would hold.
pub proof fn lemma_assoc_set<V>(list: Seq<(Seq<char>, V)>, k: Seq<char>, v: V, q: Seq<char>)
    ensures
        lookup(assoc_set(list, k, v), q) == if q == k {
            Some(v)
        } else {
            lookup(list, q)
        },
{
    let t = assoc_set(list, k, v);
    lemma_key_index(list, k);
    lemma_key_index(list, q);
    lemma_key_index(t, q);
    let i = key_index(list, k);
    let iq = key_index(list, q);
    let tq = key_index(t, q);
    if q == k {
        if i < 0 {
            assert(t[list.len() as int].0 == q);
        } else {
            assert(t[i].0 == q);
        }
    } else {
        if iq >= 0 {
            assert(t[iq] == list[iq]);
            assert(t[iq].0 == q);
            if tq >= 0 && tq < iq {
                assert(t[tq] == list[tq] || tq == i);
            }
        }
        if tq >= 0 {
            assert(tq == i ==> t[tq].0 == k);
            assert(tq < list.len() ==> t[tq] == list[tq]);
        }
    }
}

fn find_key<V>(list: &Vec<(String, V)>, k: &str) -> (r: Option<usize>)
    ensures
        r matches Some(i) ==> key_index(pairs_view(list@), k@) == i as int,
        r is None ==> key_index(pairs_view(list@), k@) == -1,
{
    let key = k.to_owned();
    let ghost pv = pairs_view(list@);
    proof {
        lemma_key_index(pv, k@);
    }
    let mut i: usize = 0;
    while i < list.len()
        invariant
            i <= list@.len(),
            pv == pairs_view(list@),
            key@ == k@,
            forall|j: int| 0 <= j < i ==> pv[j].0 != k@,
        decreases list@.len() - i,
    {
        if list[i].0 == key {
            proof {
                assert(pv[i as int].0 == k@);
                lemma_key_index(pv, k@);
            }
            return Some(i);
        }
        i = i + 1;
    }
    None
}

/// Keys of a list of pairs as character sequences.
pub open spec fn pairs_view<V>(list: Seq<(String, V)>) -> Seq<(Seq<char>, V)> {
    list.map_values(|p: (String, V)| (p.0@, p.1))
}

/// Text values of a list of pairs as character sequences.
pub open spec fn text_pairs_view(list: Seq<(String, String)>) -> Seq<(Seq<char>, Seq<char>)> {
    list.map_values(|p: (String, String)| (p.0@, p.1@))
}

/// Child lists of a list of pairs as character sequences.
pub open spec fn dir_pairs_view(list: Seq<(String, Vec<String>)>) -> Seq<
    (Seq<char>, Seq<Seq<char>>),
> {
    list.map_values(|p: (String, Vec<String>)| (p.0@, p.1@.map_values(|s: String| s@)))
}

/// In-memory implementation of `GraphSource`, for tests: a map from file
/// paths to contents and a map from directory paths to their children.
pub struct FakeGraphSource {
    files: Vec<(String, String)>,
    dirs: Vec<(String, Vec<String>)>,
}

/// The two maps of a `FakeGraphSource`, as association lists.
pub struct FakeView {
    pub files: Seq<(Seq<char>, Seq<char>)>,
    pub dirs: Seq<(Seq<char>, Seq<Seq<char>>)>,
}

impl View for FakeGraphSource {
    type V = FakeView;

    closed spec fn view(&self) -> FakeView {
        FakeView { files: text_pairs_view(self.files@), dirs: dir_pairs_view(self.dirs@) }
    }
}

/// The entry a fake source lists for child path `k`: named by the
/// URL-decoded stem of its file name, a directory when it has children
/// registered.
pub open spec fn child_entry(dirs: Seq<(Seq<char>, Seq<Seq<char>>)>, k: Seq<char>) -> EntryView {
    EntryView {
        path: k,
        name: url_decoded(
            match file_stem_of(k) {
                Some(s) => s,
                None => seq![],
            },
        ),
        is_dir: lookup(dirs, k) is Some,
    }
}

/// The journals directory (listed newest first).
pub open spec fn is_journals_dir(dir: Seq<char>) -> bool {
    file_name_of(dir) == Some(seq!['j', 'o', 'u', 'r', 'n', 'a', 'l', 's'])
}

/// The files under `dir` in a fake graph, depth first in listing order:
/// a child with children registered is descended into, any other child is
/// a file. `fuel` bounds the depth (the number of directories suffices for
/// any graph without cycles).
pub open spec fn collect_files(dirs: Seq<(Seq<char>, Seq<Seq<char>>)>, dir: Seq<char>, fuel: nat) -> Seq<
    Seq<char>,
>
    decreases fuel, 0nat,
{
    if fuel == 0 {
        seq![]
    } else {
        match lookup(dirs, dir) {
            None => seq![],
            Some(kids) => collect_kids(dirs, kids, kids.len() as int, (fuel - 1) as nat),
        }
    }
}

/// The files under the first `n` of `kids` (see `collect_files`).
pub open spec fn collect_kids(
    dirs: Seq<(Seq<char>, Seq<Seq<char>>)>,
    kids: Seq<Seq<char>>,
    n: int,
    fuel: nat,
) -> Seq<Seq<char>>
    decreases fuel, n,
{
    if n <= 0 || n > kids.len() {
        seq![]
    } else {
        let k = kids[n - 1];
        collect_kids(dirs, kids, n - 1, fuel) + if lookup(dirs, k) is Some {
            collect_files(dirs, k, fuel)
        } else {
            seq![k]
        }
    }
}

impl FakeGraphSource {
    /// An empty graph.
    pub fn new() -> (r: Self)
        ensures
            r@.files.len() == 0,
            r@.dirs.len() == 0,
    {
        Self { files: Vec::new(), dirs: Vec::new() }
    }

    /// Stores (or replaces) file `path` with `content`.
    pub fn add_file(&mut self, path: String, content: &str)
        ensures
            final(self)@ == (FakeView {
                files: assoc_set(old(self)@.files, path@, content@),
                dirs: old(self)@.dirs,
            }),
    {
        let c = content.to_owned();
        match find_key(&self.files, path.as_str()) {
            Some(i) => {
                let ghost before = self.files@;
                proof {
                    lemma_key_index(pairs_view(before), path@);
                }
                self.files.set(i, (path, c));
                assert(key_index(text_pairs_view(before), path@) == i) by {
                    lemma_same_keys_text(before, path@);
                }
                assert(text_pairs_view(self.files@) =~= text_pairs_view(before).update(
                    i as int,
                    (path@, c@),
                ));
            },
            None => {
                let ghost before = self.files@;
                self.files.push((path, c));
                assert(key_index(text_pairs_view(before), path@) == -1) by {
                    lemma_same_keys_text(before, path@);
                }
                assert(text_pairs_view(self.files@) =~= text_pairs_view(before).push((path@, c@)));
            },
        }
    }

    /// Registers (or replaces) directory `path` with its child paths.
    pub fn add_dir(&mut self, path: String, children: Vec<String>)
        ensures
            final(self)@ == (FakeView {
                files: old(self)@.files,
                dirs: assoc_set(old(self)@.dirs, path@, children@.map_values(|s: String| s@)),
            }),
    {
        let ghost kids = children@.map_values(|s: String| s@);
        match find_key(&self.dirs, path.as_str()) {
            Some(i) => {
                let ghost before = self.dirs@;
                proof {
                    lemma_key_index(pairs_view(before), path@);
                }
                self.dirs.set(i, (path, children));
                assert(key_index(dir_pairs_view(before), path@) == i) by {
                    lemma_same_keys_dirs(before, path@);
                }
                assert(dir_pairs_view(self.dirs@) =~= dir_pairs_view(before).update(
                    i as int,
                    (path@, kids),
                ));
            },
            None => {
                let ghost before = self.dirs@;
                self.dirs.push((path, children));
                assert(key_index(dir_pairs_view(before), path@) == -1) by {
                    lemma_same_keys_dirs(before, path@);
                }
                assert(dir_pairs_view(self.dirs@) =~= dir_pairs_view(before).push((path@, kids)));
            },
        }
    }

    /// Registers directory `path` with the given children, storing the
    /// content of each child that is not a directory.
    pub fn add_dir_entries(&mut self, path: String, entries: Vec<(String, bool, &str)>)
        ensures
            final(self)@.dirs == assoc_set(
                old(self)@.dirs,
                path@,
                entries@.map_values(|e: (String, bool, &str)| e.0@),
            ),
            final(self)@.files == set_files(old(self)@.files, entries@, entries@.len() as int),
    {
        let mut children: Vec<String> = Vec::new();
        let mut i: usize = 0;
        while i < entries.len()
            invariant
                i <= entries@.len(),
                children@.len() == i,
                children@.map_values(|s: String| s@) == entries@.take(i as int).map_values(
                    |e: (String, bool, &str)| e.0@,
                ),
            decreases entries@.len() - i,
        {
            let ghost prev = children@;
            children.push(entries[i].0.clone());
            proof {
                let ghost f = |s: String| s@;
                let ghost g = |e: (String, bool, &str)| e.0@;
                assert forall|k: int| 0 <= k < i + 1 implies children@.map_values(f)[k]
                    == entries@.take(i + 1).map_values(g)[k] by {
                    if k < i {
                        assert(prev.map_values(f)[k] == entries@.take(i as int).map_values(g)[k]);
                    }
                }
            }
            i = i + 1;
            assert(children@.map_values(|s: String| s@) =~= entries@.take(i as int).map_values(
                |e: (String, bool, &str)| e.0@,
            ));
        }
        assert(entries@.take(entries@.len() as int) =~= entries@);
        self.add_dir(path, children);
        let ghost files0 = self@.files;
        assert(set_files(files0, entries@, 0) == files0);
        let mut j: usize = 0;
        while j < entries.len()
            invariant
                j <= entries@.len(),
                self@.files == set_files(files0, entries@, j as int),
                self@.dirs == assoc_set(
                    old(self)@.dirs,
                    path@,
                    entries@.map_values(|e: (String, bool, &str)| e.0@),
                ),
                files0 == old(self)@.files,
            decreases entries@.len() - j,
        {
            if !entries[j].1 {
                self.add_file(entries[j].0.clone(), entries[j].2);
            }
            j = j + 1;
        }
    }
}

/// Files after storing the content of each non-directory among the first
/// `n` entries, in order.
pub open spec fn set_files(
    files: Seq<(Seq<char>, Seq<char>)>,
    entries: Seq<(String, bool, &str)>,
    n: int,
) -> Seq<(Seq<char>, Seq<char>)>
    decreases n,
{
    if n <= 0 || n > entries.len() {
        files
    } else {
        let prev = set_files(files, entries, n - 1);
        let e = entries[n - 1];
        if e.1 {
            prev
        } else {
            assoc_set(prev, e.0@, e.2@)
        }
    }
}

proof fn lemma_same_keys_text(list: Seq<(String, String)>, k: Seq<char>)
    ensures
        key_index(text_pairs_view(list), k) == key_index(pairs_view(list), k),
    decreases list.len(),
{
    if list.len() > 0 {
        lemma_same_keys_text(list.drop_first(), k);
        assert(text_pairs_view(list).drop_first() =~= text_pairs_view(list.drop_first()));
        assert(pairs_view(list).drop_first() =~= pairs_view(list.drop_first()));
    }
}

proof fn lemma_same_keys_dirs(list: Seq<(String, Vec<String>)>, k: Seq<char>)
    ensures
        key_index(dir_pairs_view(list), k) == key_index(pairs_view(list), k),
    decreases list.len(),
{
    if list.len() > 0 {
        lemma_same_keys_dirs(list.drop_first(), k);
        assert(dir_pairs_view(list).drop_first() =~= dir_pairs_view(list.drop_first()));
        assert(pairs_view(list).drop_first() =~= pairs_view(list.drop_first()));
    }
}


/// Whether `dir` is the journals directory (its last component is
/// `journals`), whose listing runs newest first.
pub fn is_journals_path(dir: &str) -> (r: bool)
    ensures
        r == is_journals_dir(dir@),
{
    let cs = str_chars(dir);
    let lit = ['j', 'o', 'u', 'r', 'n', 'a', 'l', 's'];
    assert(lit@ =~= seq!['j', 'o', 'u', 'r', 'n', 'a', 'l', 's']);
    match file_name_range(cs.as_slice()) {
        None => false,
        Some((a, b)) => chars_eq(cs.as_slice(), a, b, lit.as_slice()),
    }
}

/// What a fake source lists for `dir`, before ordering.
pub open spec fn listed_children(dirs: Seq<(Seq<char>, Seq<Seq<char>>)>, dir: Seq<char>) -> Seq<
    EntryView,
> {
    match lookup(dirs, dir) {
        Some(kids) => kids.map_values(|k: Seq<char>| child_entry(dirs, k)),
        None => seq![],
    }
}

/// Paths of a list of strings as character sequences.
pub open spec fn paths_view(v: Seq<String>) -> Seq<Seq<char>> {
    v.map_values(|s: String| s@)
}

impl FakeGraphSource {
    /// Position of directory `dir` among the registered directories.
    fn dir_index(&self, dir: &str) -> (r: Option<usize>)
        ensures
            r matches Some(i) ==> i < self.dirs@.len() && lookup(self@.dirs, dir@) == Some(
                paths_view(self.dirs@[i as int].1@),
            ),
            r is None ==> lookup(self@.dirs, dir@) is None,
    {
        let r = find_key(&self.dirs, dir);
        proof {
            lemma_same_keys_dirs(self.dirs@, dir@);
            lemma_key_index(dir_pairs_view(self.dirs@), dir@);
        }
        r
    }

    /// The entry listed for child path `k`.
    fn child_entry_exec(&self, k: &String) -> (r: Entry)
        ensures
            r@ == child_entry(self@.dirs, k@),
    {
        let is_dir = self.dir_index(k.as_str()).is_some();
        let stem = match file_stem(k.as_str()) {
            Some(s) => s,
            None => String::new(),
        };
        let name = url_decode(stem.as_str());
        Entry { path: k.clone(), name, is_dir }
    }

    /// Appends to `out` the files under `dir` (see `collect_files`).
    fn collect_into(&self, dir: &str, fuel: usize, out: &mut Vec<String>)
        ensures
            paths_view(final(out)@) == paths_view(old(out)@) + collect_files(
                self@.dirs,
                dir@,
                fuel as nat,
            ),
        decreases fuel,
    {
        if fuel == 0 {
            assert(paths_view(out@) =~= paths_view(out@) + Seq::<Seq<char>>::empty());
            return;
        }
        match self.dir_index(dir) {
            None => {
                assert(paths_view(out@) =~= paths_view(out@) + Seq::<Seq<char>>::empty());
            },
            Some(d) => {
                let kids = &self.dirs[d].1;
                let ghost kv = paths_view(kids@);
                let ghost start = paths_view(out@);
                let ghost dirs = self@.dirs;
                let mut i: usize = 0;
                assert(start =~= start + collect_kids(dirs, kv, 0, (fuel - 1) as nat));
                while i < kids.len()
                    invariant
                        i <= kids@.len(),
                        kv == paths_view(kids@),
                        dirs == self@.dirs,
                        0 < fuel,
                        paths_view(out@) == start + collect_kids(dirs, kv, i as int, (fuel - 1) as nat),
                    decreases kids@.len() - i,
                {
                    let k = &kids[i];
                    let ghost before = paths_view(out@);
                    assert(kv[i as int] == k@);
                    if self.dir_index(k.as_str()).is_some() {
                        self.collect_into(k.as_str(), fuel - 1, out);
                    } else {
                        out.push(k.clone());
                        assert(paths_view(out@) =~= before + seq![k@]);
                    }
                    i = i + 1;
                    assert(paths_view(out@) =~= start + collect_kids(dirs, kv, i as int, (fuel - 1) as nat));
                }
                assert(lookup(dirs, dir@) == Some(kv));
            },
        }
    }
}

impl Default for FakeGraphSource {
    /// An empty graph.
    fn default() -> (r: Self)
        ensures
            r@.files.len() == 0,
            r@.dirs.len() == 0,
    {
        Self::new()
    }
}

impl GraphSource for FakeGraphSource {
    /// A stored file reads as its content.
    open spec fn reads(&self, path: Seq<char>, content: Seq<char>) -> bool {
        lookup(self@.files, path) == Some(content)
    }

    /// A directory lists its registered children, sorted by name (the
    /// journals directory newest first).
    open spec fn lists(&self, dir: Seq<char>, entries: Seq<EntryView>) -> bool {
        stable_sort_of(entries, listed_children(self@.dirs, dir), is_journals_dir(dir))
    }

    /// The files under `root`, depth first in registration order.
    open spec fn lists_all(&self, root: Seq<char>, files: Seq<Seq<char>>) -> bool {
        files == collect_files(self@.dirs, root, self@.dirs.len())
    }

    fn children(&self, dir: &str) -> (r: Result<Vec<Entry>, SourceError>)
        ensures
            r matches Ok(v) && stable_sort_of(
                entries_view(v@),
                listed_children(self@.dirs, dir@),
                is_journals_dir(dir@),
            ),
    {
        let mut entries: Vec<Entry> = Vec::new();
        let ghost listed = listed_children(self@.dirs, dir@);
        match self.dir_index(dir) {
            None => {
                assert(entries_view(entries@) =~= listed);
            },
            Some(d) => {
                let kids = &self.dirs[d].1;
                let mut i: usize = 0;
                while i < kids.len()
                    invariant
                        i <= kids@.len(),
                        lookup(self@.dirs, dir@) == Some(paths_view(kids@)),
                        listed == listed_children(self@.dirs, dir@),
                        listed.len() == kids@.len(),
                        entries@.len() == i,
                        entries_view(entries@) == listed.take(i as int),
                    decreases kids@.len() - i,
                {
                    let e = self.child_entry_exec(&kids[i]);
                    let ghost before = entries_view(entries@);
                    let ghost old_e = entries@;
                    entries.push(e);
                    proof {
                        assert(listed.len() == kids@.len());
                        assert(paths_view(kids@)[i as int] == kids@[i as int]@);
                        assert(listed[i as int] == e@);
                        assert forall|k: int| 0 <= k < i + 1 implies entries_view(entries@)[k]
                            == listed.take(i + 1)[k] by {
                            if k < i {
                                assert(before[k] == listed.take(i as int)[k]);
                                assert(entries@[k] == old_e[k]);
                            }
                        }
                    }
                    assert(entries_view(entries@) =~= listed.take(i + 1));
                    i = i + 1;
                }
                assert(listed.take(kids@.len() as int) =~= listed);
            },
        }
        let desc = is_journals_path(dir);
        Ok(sort_entries(&entries, desc))
    }

    fn read(&self, path: &str) -> (r: Result<String, SourceError>)
        ensures
            match lookup(self@.files, path@) {
                Some(c) => r matches Ok(s) && s@ == c,
                None => r matches Err(SourceError::NotFound(p)) && p@ == path@,
            },
    {
        match find_key(&self.files, path) {
            Some(i) => {
                proof {
                    lemma_same_keys_text(self.files@, path@);
                    lemma_key_index(text_pairs_view(self.files@), path@);
                }
                Ok(self.files[i].1.clone())
            },
            None => {
                proof {
                    lemma_same_keys_text(self.files@, path@);
                }
                Err(SourceError::NotFound(path.to_owned()))
            },
        }
    }

    fn write(&mut self, path: &str, contents: &str) -> (r: Result<(), SourceError>)
        ensures
            r is Ok,
            final(self)@ == (FakeView {
                files: assoc_set(old(self)@.files, path@, contents@),
                dirs: old(self)@.dirs,
            }),
    {
        let ghost before = self@.files;
        self.add_file(path.to_owned(), contents);
        proof {
            lemma_assoc_set(before, path@, contents@, path@);
        }
        Ok(())
    }

    fn all_files(&self, root: &str) -> (r: Result<Vec<String>, SourceError>)
        ensures
            r matches Ok(v) && paths_view(v@) == collect_files(
                self@.dirs,
                root@,
                self@.dirs.len(),
            ),
    {
        let mut out: Vec<String> = Vec::new();
        self.collect_into(root, self.dirs.len(), &mut out);
        assert(paths_view(out@) =~= collect_files(self@.dirs, root@, self@.dirs.len()));
        Ok(out)
    }
}

/// The files a fake source holds after the writes (or additions) `ops`,
/// each a path and its content, made in order to an empty source.
pub open spec fn files_after(ops: Seq<(Seq<char>, Seq<char>)>) -> Seq<(Seq<char>, Seq<char>)>
    decreases ops.len(),
{
    if ops.len() == 0 {
        seq![]
    } else {
        assoc_set(files_after(ops.drop_last()), ops.last().0, ops.last().1)
    }
}

/// After writes made in order to an empty in-memory source, a path holds
/// what its last write wrote, and a path never written holds nothing (so
/// reading it is an error, `SourceError::NotFound`).
pub proof fn lemma_fake_history(ops: Seq<(Seq<char>, Seq<char>)>, q: Seq<char>)
    ensures
        (forall|i: int| 0 <= i < ops.len() ==> (#[trigger] ops[i]).0 != q) ==> lookup(
            files_after(ops),
            q,
        ) is None,
        forall|i: int|
            0 <= i < ops.len() && (#[trigger] ops[i]).0 == q && (forall|j: int|
                i < j < ops.len() ==> (#[trigger] ops[j]).0 != q) ==> lookup(files_after(ops), q)
                == Some(ops[i].1),
    decreases ops.len(),
{
    if ops.len() == 0 {
        assert(lookup(Seq::<(Seq<char>, Seq<char>)>::empty(), q) is None) by {
            assert(key_index(Seq::<(Seq<char>, Seq<char>)>::empty(), q) == -1);
        }
    } else {
        let prev = ops.drop_last();
        lemma_fake_history(prev, q);
        lemma_assoc_set(files_after(prev), ops.last().0, ops.last().1, q);
        if forall|i: int| 0 <= i < ops.len() ==> (#[trigger] ops[i]).0 != q {
            assert forall|i: int| 0 <= i < prev.len() implies (#[trigger] prev[i]).0 != q by {
                assert(prev[i] == ops[i]);
            }
        }
        assert forall|i: int|
            0 <= i < ops.len() && (#[trigger] ops[i]).0 == q && (forall|j: int|
                i < j < ops.len() ==> (#[trigger] ops[j]).0 != q) implies lookup(
            files_after(ops),
            q,
        ) == Some(ops[i].1) by {
            if i < ops.len() - 1 {
                assert(ops[ops.len() - 1].0 != q);
                assert(prev[i] == ops[i]);
                assert forall|j: int| i < j < prev.len() implies (#[trigger] prev[j]).0 != q by {
                    assert(prev[j] == ops[j]);
                }
            }
        }
    }
}

/// In memory a file reads as one content only, so once a write succeeds
/// (`GraphSource::write`), a successful read of that file gives back
/// exactly what was written.
pub proof fn lemma_fake_reads_one(src: FakeGraphSource, path: Seq<char>, c1: Seq<char>, c2: Seq<char>)
    requires
        src.reads(path, c1),
        src.reads(path, c2),
    ensures
        c1 == c2,
{
}

/// A read right after a write gives back what was written, and the write
/// leaves every other file as it was.
pub proof fn lemma_write_then_read(
    before: FakeView,
    after: FakeView,
    path: Seq<char>,
    contents: Seq<char>,
    other: Seq<char>,
)
    requires
        after.files == assoc_set(before.files, path, contents),
    ensures
        lookup(after.files, path) == Some(contents),
        other != path ==> lookup(after.files, other) == lookup(before.files, other),
{
    lemma_assoc_set(before.files, path, contents, path);
    lemma_assoc_set(before.files, path, contents, other);
}


// ---------------------------------------------------------------------------
// Listings of a filesystem graph
// ---------------------------------------------------------------------------

/// The path names a markdown file (its extension is `md`).
pub open spec fn is_markdown(p: Seq<char>) -> bool {
    match file_name_of(p) {
        Some(n) => extension_of(n) == Some(seq!['m', 'd']),
        None => false,
    }
}

/// The name a listing gives a path: its URL-decoded file stem.
pub open spec fn entry_name(p: Seq<char>) -> Seq<char> {
    url_decoded(
        match file_stem_of(p) {
            Some(s) => s,
            None => seq![],
        },
    )
}

/// The path's file name is hidden from listings (see `is_hidden_name`).
pub open spec fn hidden_path(p: Seq<char>) -> bool {
    match file_name_of(p) {
        Some(n) => is_hidden_name(n),
        None => false,
    }
}

/// Whether the file name of path `p` is hidden from listings.
fn is_hidden_path(p: &str) -> (r: bool)
    ensures
        r == hidden_path(p@),
{
    let cs = str_chars(p);
    match file_name_range(cs.as_slice()) {
        None => false,
        Some((a, b)) => {
            let ghost name = cs@.subrange(a as int, b as int);
            if a < b && cs[a] == '.' {
                assert(name[0] == '.');
                return true;
            }
            let r = chars_eq(cs.as_slice(), a, b, ['b', 'a', 'k'].as_slice());
            assert(['b', 'a', 'k']@ =~= seq!['b', 'a', 'k']);
            r
        },
    }
}

/// The entries kept from the first `k` children `(path, is_dir)` of a
/// directory walk: directories and markdown files whose names are not
/// hidden, in walk order.
pub open spec fn kept_children(raw: Seq<(Seq<char>, bool)>, k: int) -> Seq<EntryView>
    decreases k,
{
    if k <= 0 {
        seq![]
    } else {
        let prev = kept_children(raw, k - 1);
        let c = raw[k - 1];
        if !hidden_path(c.0) && (c.1 || is_markdown(c.0)) {
            prev.push(EntryView { path: c.0, name: entry_name(c.0), is_dir: c.1 })
        } else {
            prev
        }
    }
}

/// The listing of directory `dir` from its walked children: directories
/// and markdown files, without dotfiles or the `bak` folder, in walk
/// order, the journals directory newest first.
pub open spec fn listing(dir: Seq<char>, raw: Seq<(Seq<char>, bool)>) -> Seq<EntryView> {
    let kept = kept_children(raw, raw.len() as int);
    if is_journals_dir(dir) {
        sorted_by_name(kept, true)
    } else {
        kept
    }
}

/// Views of walked children.
pub open spec fn walked_view(v: Seq<(String, bool)>) -> Seq<(Seq<char>, bool)> {
    v.map_values(|c: (String, bool)| (c.0@, c.1))
}

/// The listing of directory `dir` from its children `(path, is_dir)` as a
/// directory walk yields them, in file-name order: directories and
/// markdown files are kept unless their name is hidden (a dotfile or the
/// `bak` folder, see `is_hidden_name`), named by their URL-decoded file
/// stem, and the journals directory is listed newest first.
pub fn listing_entries(dir: &str, walked: &Vec<(String, bool)>) -> (r: Vec<Entry>)
    ensures
        entries_view(r@) == listing(dir@, walked_view(walked@)),
{
    let ghost raw = walked_view(walked@);
    let mut kept: Vec<Entry> = Vec::new();
    let mut i: usize = 0;
    while i < walked.len()
        invariant
            i <= walked@.len(),
            raw == walked_view(walked@),
            entries_view(kept@) == kept_children(raw, i as int),
        decreases walked@.len() - i,
    {
        let path = &walked[i].0;
        let is_dir = walked[i].1;
        assert(raw[i as int] == (path@, is_dir));
        if !is_hidden_path(path.as_str()) && (is_dir || is_markdown_path(path.as_str())) {
            let stem = match file_stem(path.as_str()) {
                Some(st) => st,
                None => String::new(),
            };
            let e = Entry { path: path.clone(), name: url_decode(stem.as_str()), is_dir };
            let ghost prev = entries_view(kept@);
            let ghost old_k = kept@;
            kept.push(e);
            assert(kept@ =~= old_k.push(e));
            assert(entries_view(kept@) =~= prev.push(e@));
        }
        i = i + 1;
    }
    if is_journals_path(dir) {
        sort_entries(&kept, true)
    } else {
        kept
    }
}

/// The markdown paths among the first `k` of `paths`, in order.
pub open spec fn markdown_among(paths: Seq<Seq<char>>, k: int) -> Seq<Seq<char>>
    decreases k,
{
    if k <= 0 {
        seq![]
    } else if is_markdown(paths[k - 1]) {
        markdown_among(paths, k - 1).push(paths[k - 1])
    } else {
        markdown_among(paths, k - 1)
    }
}

/// The markdown files among `paths`, in order.
pub fn markdown_files(paths: &Vec<String>) -> (r: Vec<String>)
    ensures
        paths_view(r@) == markdown_among(paths_view(paths@), paths@.len() as int),
{
    let ghost pv = paths_view(paths@);
    let mut out: Vec<String> = Vec::new();
    let mut i: usize = 0;
    while i < paths.len()
        invariant
            i <= paths@.len(),
            pv == paths_view(paths@),
            paths_view(out@) == markdown_among(pv, i as int),
        decreases paths@.len() - i,
    {
        assert(pv[i as int] == paths@[i as int]@);
        if is_markdown_path(paths[i].as_str()) {
            let ghost prev = paths_view(out@);
            let ghost old_o = out@;
            let p = paths[i].clone();
            out.push(p);
            assert(out@ =~= old_o.push(p));
            assert(paths_view(out@) =~= prev.push(p@));
        }
        i = i + 1;
    }
    out
}

} // verus!
