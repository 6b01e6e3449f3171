//! The lines of headers in armored text.
use crate::headers::{collected, last_value, lookup, HeaderModel, Headers};
use vstd::prelude::*;
use vstd::slice::slice_subrange;
use vstd::utf8::{encode_utf8, valid_utf8};

verus! {

/// The error of reading octets as UTF-8.
#[verifier::external_type_specification]
#[verifier::external_body]
pub struct ExUtf8Error(core::str::Utf8Error);

/// `core::str::from_utf8` reads octets as text. Claimed: it succeeds if and only if the
/// octets are valid UTF-8, and the text then has those octets.
pub assume_specification[ core::str::from_utf8 ](v: &[u8]) -> (r: Result<
    &str,
    core::str::Utf8Error,
>)
    ensures
        r is Ok <==> valid_utf8(v@),
        r matches Ok(s) ==> encode_utf8(s@) == v@,
;

/// The octet that ends a line.
pub const BREAK: u8 = 10;

/// The two octets between a key and its value.
pub const COLON: u8 = 58;

pub const SPACE: u8 = 32;

/// The line of a header.
pub open spec fn header_line(h: HeaderModel) -> Seq<u8> {
    h.0 + seq![COLON, SPACE] + h.1 + seq![BREAK]
}

/// The lines of headers.
pub open spec fn header_lines(hs: Seq<HeaderModel>) -> Seq<u8>
    decreases hs.len(),
{
    if hs.len() == 0 {
        Seq::empty()
    } else {
        header_lines(hs.drop_last()) + header_line(hs.last())
    }
}

/// Where the first line break at or after `i` is.
pub open spec fn break_at(s: Seq<u8>, i: int) -> Option<int>
    decreases s.len() - i,
{
    if i >= s.len() {
        None
    } else if s[i] == BREAK {
        Some(i)
    } else {
        break_at(s, i + 1)
    }
}

/// What comes after the empty line that ends the headers.
pub open spec fn after_headers(s: Seq<u8>) -> Option<Seq<u8>>
    decreases s.len(),
{
    if s.len() == 0 {
        None
    } else if s[0] == BREAK {
        Some(s.skip(1))
    } else {
        match break_at(s, 0) {
            Some(i) => if 0 <= i < s.len() {
                after_headers(s.skip(i + 1))
            } else {
                None
            },
            None => None,
        }
    }
}

/// Where the key of a header ends: at the first colon at or after `i` that a space
/// follows.
pub open spec fn colon_at(line: Seq<u8>, i: int) -> Option<int>
    decreases line.len() - i,
{
    if i + 1 >= line.len() {
        None
    } else if line[i] == COLON && line[i + 1] == SPACE {
        Some(i)
    } else {
        colon_at(line, i + 1)
    }
}

/// The header on a line; none where the line is not one, or not text.
pub open spec fn header_on(line: Seq<u8>) -> Option<HeaderModel> {
    match colon_at(line, 0) {
        Some(i) => if valid_utf8(line.take(i)) && valid_utf8(line.skip(i + 2)) {
            Some((line.take(i), line.skip(i + 2)))
        } else {
            None
        },
        None => None,
    }
}

/// The headers on the lines up to the first empty one. Lines that are no headers are
/// passed over.
pub open spec fn header_entries(s: Seq<u8>) -> Seq<HeaderModel>
    decreases s.len(),
{
    if s.len() == 0 || s[0] == BREAK {
        Seq::empty()
    } else {
        match break_at(s, 0) {
            Some(i) => if 0 <= i < s.len() {
                let more = header_entries(s.skip(i + 1));
                match header_on(s.take(i)) {
                    Some(h) => seq![h] + more,
                    None => more,
                }
            } else {
                Seq::empty()
            },
            None => Seq::empty(),
        }
    }
}

/// Appends the lines of headers.
pub fn push_headers(out: &mut Vec<u8>, headers: &Headers)
    ensures
        final(out)@ == old(out)@ + header_lines(headers@),
{
    let ghost before = out@;
    assert(headers@.take(0) =~= Seq::empty());
    let n = headers.len();
    for i in 0..n
        invariant
            n == headers@.len(),
            before == old(out)@,
            out@ == before + header_lines(headers@.take(i as int)),
    {
        let ghost mid = out@;
        let (key, value) = headers.entry(i);
        out.extend_from_slice(key.as_bytes());
        out.push(COLON);
        out.push(SPACE);
        out.extend_from_slice(value.as_bytes());
        out.push(BREAK);
        proof {
            let next = headers@.take(i + 1);
            assert(next.drop_last() =~= headers@.take(i as int));
            assert(out@ =~= mid + header_line(headers@[i as int]));
            assert(out@ =~= before + header_lines(next));
        }
    }
    assert(headers@.take(headers@.len() as int) =~= headers@);
}

fn find_break(s: &[u8]) -> (r: Option<usize>)
    ensures
        match break_at(s@, 0) {
            Some(i) => r matches Some(x) && x == i && i < s@.len(),
            None => r is None,
        },
{
    for i in 0..s.len()
        invariant
            break_at(s@, 0) == break_at(s@, i as int),
    {
        if s[i] == BREAK {
            return Some(i);
        }
    }
    None
}

fn find_colon(line: &[u8]) -> (r: Option<usize>)
    ensures
        match colon_at(line@, 0) {
            Some(i) => r matches Some(x) && x == i && i + 1 < line@.len(),
            None => r is None,
        },
{
    let mut i: usize = 0;
    while i < line.len() && line.len() - i > 1
        invariant
            i <= line@.len(),
            colon_at(line@, 0) == colon_at(line@, i as int),
        decreases line@.len() - i,
    {
        if line[i] == COLON && line[i + 1] == SPACE {
            return Some(i);
        }
        i = i + 1;
    }
    None
}

fn read_header(line: &[u8]) -> (r: Option<(String, String)>)
    ensures
        match header_on(line@) {
            Some((k, v)) => r matches Some((key, value)) && encode_utf8(key@) == k && encode_utf8(
                value@,
            ) == v,
            None => r is None,
        },
{
    let i = match find_colon(line) {
        Some(i) => i,
        None => {
            return None;
        },
    };
    let end = line.len();
    let key = slice_subrange(line, 0, i);
    let value = slice_subrange(line, i + 2, end);
    assert(key@ =~= line@.take(i as int));
    assert(value@ =~= line@.skip(i + 2));
    match (core::str::from_utf8(key), core::str::from_utf8(value)) {
        (Ok(k), Ok(v)) => Some((k.to_string(), v.to_string())),
        _ => None,
    }
}

/// Reads the lines of headers up to the first empty line, and says what comes after it.
pub fn read_headers<'a>(s: &'a [u8]) -> (r: Option<(Headers, &'a [u8])>)
    ensures
        match after_headers(s@) {
            Some(t) => r matches Some((h, x)) && x@ == t && collected(h@, header_entries(s@)),
            None => r is None,
        },
{
    let mut headers = Headers::new();
    let mut cur = s;
    let ghost mut done: Seq<HeaderModel> = Seq::empty();
    assert(done + header_entries(cur@) =~= header_entries(s@));
    assert(collected(headers@, done));
    while cur.len() > 0
        invariant
            after_headers(cur@) == after_headers(s@),
            done + header_entries(cur@) == header_entries(s@),
            collected(headers@, done),
        decreases cur@.len(),
    {
        if cur[0] == BREAK {
            let rest = slice_subrange(cur, 1, cur.len());
            assert(rest@ =~= cur@.skip(1));
            assert(done =~= header_entries(s@));
            return Some((headers, rest));
        }
        let i = match find_break(cur) {
            Some(i) => i,
            None => {
                return None;
            },
        };
        let line = slice_subrange(cur, 0, i);
        let rest = slice_subrange(cur, i + 1, cur.len());
        assert(line@ =~= cur@.take(i as int));
        assert(rest@ =~= cur@.skip(i + 1));
        if let Some((key, value)) = read_header(line) {
            let ghost before = headers@;
            let ghost h = (encode_utf8(key@), encode_utf8(value@));
            headers.insert(key, value);
            proof {
                let next = done.push(h);
                assert(next.drop_last() =~= done);
                assert forall|k: Seq<u8>| #[trigger] lookup(headers@, k) == last_value(next, k) by {
                    assert(lookup(before, k) == last_value(done, k));
                }
                assert(next + header_entries(rest@) =~= done + (seq![h] + header_entries(rest@)));
                done = next;
            }
        }
        cur = rest;
    }
    None
}

/// Whether a header's key and value hold no line break.
pub open spec fn one_line(h: HeaderModel) -> bool {
    &&& forall|i: int| 0 <= i < h.0.len() ==> #[trigger] h.0[i] != BREAK
    &&& forall|i: int| 0 <= i < h.1.len() ==> #[trigger] h.1[i] != BREAK
}

/// Whether nothing but line breaks follows an empty line in `s`.
pub open spec fn ends_at_empty_line(s: Seq<u8>) -> bool {
    forall|i: int, j: int|
        0 <= i < j < s.len() && #[trigger] s[i] == BREAK && (i == 0 || s[i - 1] == BREAK)
            ==> #[trigger] s[j] == BREAK
}

/// Line breaks.
pub open spec fn breaks(k: nat) -> Seq<u8> {
    Seq::new(k, |i: int| BREAK)
}

proof fn lemma_break_found(line: Seq<u8>, rest: Seq<u8>, i: int)
    requires
        forall|j: int| 0 <= j < line.len() ==> #[trigger] line[j] != BREAK,
        0 <= i <= line.len(),
    ensures
        break_at(line + seq![BREAK] + rest, i) == Some(line.len() as int),
    decreases line.len() - i,
{
    let s = line + seq![BREAK] + rest;
    if i < line.len() {
        assert(s[i] == line[i]);
        lemma_break_found(line, rest, i + 1);
    } else {
        assert(s[i] == BREAK);
    }
}

proof fn lemma_break_at(s: Seq<u8>, j: int) -> (i: int)
    requires
        0 <= j < s.len(),
        s.last() == BREAK,
    ensures
        j <= i < s.len(),
        s[i] == BREAK,
        forall|a: int| j <= a < i ==> #[trigger] s[a] != BREAK,
    decreases s.len() - j,
{
    if s[j] == BREAK {
        j
    } else {
        lemma_break_at(s, j + 1)
    }
}

/// The lines of headers end with a line break.
pub proof fn lemma_header_lines_end(hs: Seq<HeaderModel>)
    ensures
        header_lines(hs).len() > 0 ==> header_lines(hs).last() == BREAK,
{
}

/// Lines are passed over up to the first empty one; what is left before the rest is
/// nothing but line breaks, if those lines hold nothing else behind an empty one.
pub proof fn lemma_lines_skipped(lines: Seq<u8>, rest: Seq<u8>) -> (k: nat)
    requires
        ends_at_empty_line(lines),
        lines.len() > 0 ==> lines.last() == BREAK,
    ensures
        after_headers(lines + (seq![BREAK] + rest)) == Some(breaks(k) + rest),
    decreases lines.len(),
{
    let s = lines + (seq![BREAK] + rest);
    if lines.len() == 0 {
        assert(s.skip(1) =~= breaks(0) + rest);
        0
    } else if lines[0] == BREAK {
        assert forall|j: int| 0 <= j < lines.len() implies #[trigger] lines[j] == BREAK by {
            if j > 0 {
                assert(lines[0] == BREAK && lines[j] == BREAK);
            }
        }
        assert(s.skip(1) =~= breaks(lines.len()) + rest);
        lines.len()
    } else {
        let i = lemma_break_at(lines, 0);
        let line = lines.take(i);
        let tail = lines.skip(i + 1);
        let more = tail + (seq![BREAK] + rest);
        assert(s =~= line + seq![BREAK] + more);
        lemma_break_found(line, more, 0);
        assert(s.skip(i + 1) =~= more);
        assert(s[0] == lines[0]);
        assert forall|a: int, b: int|
            0 <= a < b < tail.len() && #[trigger] tail[a] == BREAK && (a == 0 || tail[a - 1]
                == BREAK) implies #[trigger] tail[b] == BREAK by {
            assert(lines[a + i + 1] == BREAK);
            if a > 0 {
                assert(lines[a + i] == tail[a - 1]);
            }
            assert(lines[b + i + 1] == BREAK);
        }
        lemma_lines_skipped(tail, rest)
    }
}

/// Headers that are lines have no empty line among them.
pub proof fn lemma_one_line_headers(hs: Seq<HeaderModel>)
    requires
        forall|i: int| 0 <= i < hs.len() ==> one_line(#[trigger] hs[i]),
    ensures
        ends_at_empty_line(header_lines(hs)),
        forall|i: int|
            0 <= i < header_lines(hs).len() && #[trigger] header_lines(hs)[i] == BREAK ==> i > 0
                && header_lines(hs)[i - 1] != BREAK,
    decreases hs.len(),
{
    if hs.len() > 0 {
        let front = hs.drop_last();
        let h = hs.last();
        assert(one_line(hs[hs.len() - 1]));
        assert forall|i: int| 0 <= i < front.len() implies one_line(#[trigger] front[i]) by {
            assert(front[i] == hs[i]);
        }
        lemma_one_line_headers(front);
        let f = header_lines(front);
        let l = header_line(h);
        let all = header_lines(hs);
        assert forall|i: int| 0 <= i < all.len() && #[trigger] all[i] == BREAK implies i > 0
            && all[i - 1] != BREAK by {
            if i < f.len() {
                assert(f[i] == BREAK);
                assert(all[i - 1] == f[i - 1]);
            } else {
                lemma_line_break(h, i - f.len());
                assert(all[i] == l[i - f.len()]);
                assert(all[i - 1] == l[i - f.len() - 1]);
            }
        }
    }
}

proof fn lemma_line_break(h: HeaderModel, j: int)
    requires
        one_line(h),
        0 <= j < header_line(h).len(),
    ensures
        header_line(h)[j] == BREAK <==> j == header_line(h).len() - 1,
        j == header_line(h).len() - 1 ==> j > 0 && header_line(h)[j - 1] != BREAK,
{
    let l = header_line(h);
    let n = h.0.len() as int;
    if j < n {
        assert(l[j] == h.0[j]);
    } else if j >= n + 2 && j < l.len() - 1 {
        assert(l[j] == h.1[j - n - 2]);
    }
    if j == l.len() - 1 && h.1.len() > 0 {
        assert(l[j - 1] == h.1[h.1.len() - 1]);
    }
}

/// Whether a header is one that is read as it is written: text on one line, with no colon
/// and space in its key.
pub open spec fn plain(h: HeaderModel) -> bool {
    &&& one_line(h)
    &&& valid_utf8(h.0) && valid_utf8(h.1)
    &&& forall|i: int|
        0 <= i < h.0.len() - 1 && #[trigger] h.0[i] == COLON ==> h.0[i + 1] != SPACE
}

proof fn lemma_colon_found(key: Seq<u8>, value: Seq<u8>, i: int)
    requires
        forall|j: int| 0 <= j < key.len() - 1 && #[trigger] key[j] == COLON ==> key[j + 1] != SPACE,
        0 <= i <= key.len(),
    ensures
        colon_at(key + seq![COLON, SPACE] + value, i) == Some(key.len() as int),
    decreases key.len() - i,
{
    let s = key + seq![COLON, SPACE] + value;
    if i < key.len() {
        assert(s[i] == key[i]);
        if i + 1 < key.len() {
            assert(s[i + 1] == key[i + 1]);
        } else {
            assert(s[i + 1] == COLON);
        }
        lemma_colon_found(key, value, i + 1);
    } else {
        assert(s[i] == COLON && s[i + 1] == SPACE);
    }
}

proof fn lemma_header_read(h: HeaderModel, rest: Seq<u8>)
    requires
        plain(h),
    ensures
        header_entries(header_line(h) + rest) == seq![h] + header_entries(rest),
{
    let line = h.0 + seq![COLON, SPACE] + h.1;
    let s = header_line(h) + rest;
    assert(s =~= line + seq![BREAK] + rest);
    assert forall|j: int| 0 <= j < line.len() implies #[trigger] line[j] != BREAK by {
        lemma_line_break(h, j);
        assert(header_line(h)[j] == line[j]);
    }
    lemma_break_found(line, rest, 0);
    lemma_colon_found(h.0, h.1, 0);
    assert(s[0] == line[0]);
    assert(s.take(line.len() as int) =~= line);
    assert(s.skip(line.len() as int + 1) =~= rest);
    assert(line.take(h.0.len() as int) =~= h.0);
    assert(line.skip(h.0.len() as int + 2) =~= h.1);
}

/// Plain headers are read back from their lines.
pub proof fn lemma_headers_read(hs: Seq<HeaderModel>, rest: Seq<u8>)
    requires
        forall|i: int| 0 <= i < hs.len() ==> plain(#[trigger] hs[i]),
    ensures
        header_entries(header_lines(hs) + rest) == hs + header_entries(rest),
    decreases hs.len(),
{
    if hs.len() == 0 {
        assert(header_lines(hs) + rest =~= rest);
        assert(hs + header_entries(rest) =~= header_entries(rest));
    } else {
        let front = hs.drop_last();
        let h = hs.last();
        assert(plain(hs[hs.len() - 1]));
        assert forall|i: int| 0 <= i < front.len() implies plain(#[trigger] front[i]) by {
            assert(front[i] == hs[i]);
        }
        let s = header_line(h) + rest;
        lemma_headers_read(front, s);
        lemma_header_read(h, rest);
        assert(header_lines(hs) + rest =~= header_lines(front) + s);
        assert(front + (seq![h] + header_entries(rest)) =~= hs + header_entries(rest));
    }
}

/// Headers are read line by line, up to the first empty line: a line that holds a header
/// gives it, before those of the lines after it, and any other line gives none.
pub proof fn law_headers_are_read_line_by_line(line: Seq<u8>, s: Seq<u8>)
    requires
        line.len() > 0,
        forall|j: int| 0 <= j < line.len() ==> #[trigger] line[j] != BREAK,
    ensures
        header_entries(line + seq![BREAK] + s) == match header_on(line) {
            Some(h) => seq![h] + header_entries(s),
            None => header_entries(s),
        },
        after_headers(line + seq![BREAK] + s) == after_headers(s),
        header_entries(seq![BREAK] + s) == Seq::<HeaderModel>::empty(),
        after_headers(seq![BREAK] + s) == Some(s),
        after_headers(line) is None,
{
    let t = line + seq![BREAK] + s;
    lemma_break_found(line, s, 0);
    assert(t[0] == line[0]);
    assert(t.take(line.len() as int) =~= line);
    assert(t.skip(line.len() as int + 1) =~= s);
    assert((seq![BREAK] + s).skip(1) =~= s);
    lemma_no_break(line, 0);
}

proof fn lemma_no_break(line: Seq<u8>, i: int)
    requires
        forall|j: int| 0 <= j < line.len() ==> #[trigger] line[j] != BREAK,
        0 <= i,
    ensures
        break_at(line, i) is None,
    decreases line.len() - i,
{
    if i < line.len() {
        lemma_no_break(line, i + 1);
    }
}

/// The header on a line is the key before the first colon with a space behind it, and the
/// value after those two, if both are text; a line without them holds none.
pub proof fn law_header_on_a_line(line: Seq<u8>)
    ensures
        header_on(line) matches Some((k, v)) ==> {
            &&& line == k + seq![58u8, 32u8] + v
            &&& valid_utf8(k) && valid_utf8(v)
            &&& forall|i: int|
                0 <= i < k.len() ==> !(#[trigger] line[i] == 58 && line[i + 1] == 32)
        },
        header_on(line) is None ==> forall|i: int|
            0 <= i < line.len() - 1 && #[trigger] line[i] == 58 && line[i + 1] == 32 && (forall|
                j: int,
            |
                0 <= j < i ==> !(#[trigger] line[j] == 58 && line[j + 1] == 32)) ==> !(valid_utf8(
                line.take(i),
            ) && valid_utf8(line.skip(i + 2))),
{
    lemma_colon_at(line, 0);
    if let Some(i) = colon_at(line, 0) {
        assert(line =~= line.take(i) + seq![COLON, SPACE] + line.skip(i + 2));
    }
}

proof fn lemma_colon_at(line: Seq<u8>, i: int)
    requires
        0 <= i,
    ensures
        match colon_at(line, i) {
            Some(c) => i <= c < line.len() - 1 && line[c] == COLON && line[c + 1] == SPACE && forall|
                j: int,
            | i <= j < c ==> !(#[trigger] line[j] == COLON && line[j + 1] == SPACE),
            None => forall|j: int|
                i <= j < line.len() - 1 ==> !(#[trigger] line[j] == COLON && line[j + 1] == SPACE),
        },
    decreases line.len() - i,
{
    if i + 1 < line.len() && !(line[i] == COLON && line[i + 1] == SPACE) {
        lemma_colon_at(line, i + 1);
    }
}

} // verus!
