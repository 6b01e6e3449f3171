//! Messages as text that survives where only text does.
use crate::base64::{
    base64, base64_decoded, decode_base64, law_base64_round_trip, lemma_base64_shape, push_base64,
    well_shaped, PAD,
};
use crate::be::{be_bytes, lemma_be_value_of_bytes, pow256, push_be};
use crate::crc24::{crc24, remainder, spec_crc24};
use crate::crc24::{law_checksum_notices_a_changed_octet, law_checksum_takes_in_every_octet};
use crate::errors::Error;
use crate::grammar::message_of;
use crate::header_text::{
    after_headers, break_at, breaks, ends_at_empty_line, header_entries, header_line, header_lines,
    lemma_header_lines_end, lemma_headers_read, lemma_lines_skipped, lemma_one_line_headers, plain,
    push_headers, read_headers, BREAK, COLON, SPACE,
};
use crate::headers::{collected, in_order, HeaderModel, Headers};
use crate::headers::law_ordered_entries_are_the_headers;
use crate::message::{Message, MessageModel};
use vstd::prelude::*;
use vstd::slice::slice_subrange;
use vstd::utf8::{
    encode_utf8, encode_utf8_valid_utf8, is_ascii_chars, is_ascii_chars_encode_utf8, valid_utf8,
    valid_utf8_concat,
};

verus! {

/// How many signs stand on a line.
pub const WIDTH: usize = 64;

/// The line that armored text begins with.
pub open spec fn begin_line() -> Seq<u8> {
    encode_utf8("-----BEGIN PGP MESSAGE-----\n"@)
}

/// What armored text ends with, after the checksum.
pub open spec fn end_line() -> Seq<u8> {
    encode_utf8("\n-----END PGP MESSAGE-----\n"@)
}

/// Text broken into lines.
pub open spec fn lines(text: Seq<u8>) -> Seq<u8>
    decreases text.len(),
{
    if text.len() <= WIDTH {
        text
    } else {
        text.take(WIDTH as int) + seq![BREAK] + lines(text.skip(WIDTH as int))
    }
}

/// The three octets of the checksum of a message.
pub open spec fn checksum(data: Seq<u8>) -> Seq<u8> {
    be_bytes(spec_crc24(data) as nat, 3)
}

/// The armored text for the octets of a message.
pub open spec fn armored(data: Seq<u8>, hs: Seq<HeaderModel>) -> Seq<u8> {
    begin_line() + header_lines(hs) + seq![BREAK] + lines(base64(data)) + seq![BREAK, PAD]
        + base64(checksum(data)) + end_line()
}

/// The headers that there are.
pub open spec fn header_models(headers: Option<&Headers>) -> Seq<HeaderModel> {
    match headers {
        Some(h) => h@,
        None => Seq::empty(),
    }
}

/// Whether a sequence begins with another.
pub open spec fn begins_with(s: Seq<u8>, prefix: Seq<u8>) -> bool {
    prefix.len() <= s.len() && s.take(prefix.len() as int) == prefix
}

/// Where the line break before the checksum is, at or after `i`.
pub open spec fn mark_at(s: Seq<u8>, i: int) -> Option<int>
    decreases s.len() - i,
{
    if i + 1 >= s.len() {
        None
    } else if s[i] == BREAK && s[i + 1] == PAD {
        Some(i)
    } else {
        mark_at(s, i + 1)
    }
}

/// Text without its line breaks.
pub open spec fn unbroken(s: Seq<u8>) -> Seq<u8> {
    s.filter(|c: u8| c != BREAK)
}

/// The octets that armored text stands for.
pub open spec fn unarmored(text: Seq<u8>) -> Result<Seq<u8>, Error> {
    if !begins_with(text, begin_line()) {
        Err(Error::InvalidArmor)
    } else {
        match after_headers(text.skip(begin_line().len() as int)) {
            None => Err(Error::InvalidArmor),
            Some(s) => match mark_at(s, 0) {
                None => Err(Error::InvalidArmor),
                Some(i) => {
                    let tail = s.skip(i + 2);
                    if tail.len() < 4 || !begins_with(tail.skip(4), end_line()) {
                        Err(Error::InvalidArmor)
                    } else {
                        match (
                            base64_decoded(unbroken(s.take(i))),
                            base64_decoded(tail.take(4)),
                        ) {
                            (Some(data), Some(sum)) => if sum == checksum(data) {
                                Ok(data)
                            } else {
                                Err(Error::InvalidChecksum)
                            },
                            _ => Err(Error::InvalidArmor),
                        }
                    }
                },
            },
        }
    }
}

fn push_lines(out: &mut Vec<u8>, text: &[u8])
    ensures
        final(out)@ == old(out)@ + lines(text@),
{
    let ghost before = out@;
    let mut i: usize = 0;
    assert(text@.skip(0) =~= text@);
    while text.len() - i > WIDTH
        invariant
            i <= text@.len(),
            out@ + lines(text@.skip(i as int)) == before + lines(text@),
        decreases text@.len() - i,
    {
        let ghost cur = text@.skip(i as int);
        let ghost mid = out@;
        let line = slice_subrange(text, i, i + WIDTH);
        out.extend_from_slice(line);
        out.push(BREAK);
        proof {
            assert(line@ =~= cur.take(WIDTH as int));
            assert(cur.skip(WIDTH as int) =~= text@.skip(i + WIDTH));
            assert(out@ =~= mid + (cur.take(WIDTH as int) + seq![BREAK]));
            assert(mid + (cur.take(WIDTH as int) + seq![BREAK] + lines(cur.skip(WIDTH as int)))
                =~= out@ + lines(cur.skip(WIDTH as int)));
        }
        i = i + WIDTH;
    }
    let ghost mid = out@;
    let last = slice_subrange(text, i, text.len());
    out.extend_from_slice(last);
    assert(last@ =~= text@.skip(i as int));
    assert(out@ =~= mid + last@);
}

/// Appends the armored text for the octets of a message.
pub fn push_armored(out: &mut Vec<u8>, data: &[u8], headers: Option<&Headers>)
    ensures
        final(out)@ == old(out)@ + armored(data@, header_models(headers)),
{
    let ghost before = out@;
    let begin = "-----BEGIN PGP MESSAGE-----\n".as_bytes();
    out.extend_from_slice(begin);
    if let Some(h) = headers {
        push_headers(out, h);
    }
    out.push(BREAK);
    let mut text: Vec<u8> = Vec::new();
    push_base64(&mut text, data);
    assert(text@ =~= base64(data@));
    push_lines(out, text.as_slice());
    out.push(BREAK);
    out.push(PAD);
    let mut sum: Vec<u8> = Vec::new();
    push_be(&mut sum, crc24(data) as u64, 3);
    assert(sum@ =~= checksum(data@));
    push_base64(out, sum.as_slice());
    out.extend_from_slice("\n-----END PGP MESSAGE-----\n".as_bytes());
    assert(out@ =~= before + armored(data@, header_models(headers)));
}

fn starts_with(s: &[u8], prefix: &[u8]) -> (r: bool)
    ensures
        r == begins_with(s@, prefix@),
{
    if s.len() < prefix.len() {
        return false;
    }
    for i in 0..prefix.len()
        invariant
            prefix@.len() <= s@.len(),
            forall|j: int| 0 <= j < i ==> s@[j] == prefix@[j],
    {
        if s[i] != prefix[i] {
            assert(s@.take(prefix@.len() as int)[i as int] != prefix@[i as int]);
            return false;
        }
    }
    assert(s@.take(prefix@.len() as int) =~= prefix@);
    true
}

fn find_mark(s: &[u8]) -> (r: Option<usize>)
    ensures
        match mark_at(s@, 0) {
            Some(i) => r matches Some(x) && x == i && i + 1 < s@.len(),
            None => r is None,
        },
{
    let mut i: usize = 0;
    while i < s.len() && s.len() - i > 1
        invariant
            i <= s@.len(),
            mark_at(s@, 0) == mark_at(s@, i as int),
        decreases s@.len() - i,
    {
        if s[i] == BREAK && s[i + 1] == PAD {
            return Some(i);
        }
        i = i + 1;
    }
    None
}

fn remove_breaks(s: &[u8]) -> (r: Vec<u8>)
    ensures
        r@ == unbroken(s@),
{
    let mut out: Vec<u8> = Vec::new();
    proof {
        reveal(Seq::filter);
        assert(s@.take(0) =~= Seq::empty());
    }
    for i in 0..s.len()
        invariant
            out@ == unbroken(s@.take(i as int)),
    {
        proof {
            reveal(Seq::filter);
            assert(s@.take(i + 1).drop_last() =~= s@.take(i as int));
        }
        if s[i] != BREAK {
            out.push(s[i]);
        }
    }
    assert(s@.take(s@.len() as int) =~= s@);
    out
}

/// Whether two lists of octets are the same.
fn same(a: &Vec<u8>, b: &Vec<u8>) -> (r: bool)
    ensures
        r == (a@ == b@),
{
    let r = a.len() == b.len() && starts_with(a.as_slice(), b.as_slice());
    assert(a@.len() == b@.len() ==> a@.take(b@.len() as int) =~= a@);
    r
}

/// The headers of armored text, one after the other as they are set.
pub open spec fn text_headers(text: Seq<u8>) -> Seq<HeaderModel> {
    header_entries(text.skip(begin_line().len() as int))
}

/// Reads the octets that armored text stands for, and its headers.
pub fn read_armored(text: &[u8]) -> (r: Result<(Vec<u8>, Headers), Error>)
    ensures
        match unarmored(text@) {
            Ok(data) => r matches Ok((x, h)) && x@ == data && collected(h@, text_headers(text@)),
            Err(e) => r == Err::<(Vec<u8>, Headers), Error>(e),
        },
{
    let begin = "-----BEGIN PGP MESSAGE-----\n".as_bytes();
    if !starts_with(text, begin) {
        return Err(Error::InvalidArmor);
    }
    let inner = slice_subrange(text, begin.len(), text.len());
    assert(inner@ =~= text@.skip(begin_line().len() as int));
    let (headers, s) = match read_headers(inner) {
        Some(found) => found,
        None => {
            return Err(Error::InvalidArmor);
        },
    };
    let i = match find_mark(s) {
        Some(i) => i,
        None => {
            return Err(Error::InvalidArmor);
        },
    };
    let body = slice_subrange(s, 0, i);
    assert(body@ =~= s@.take(i as int));
    let end = s.len();
    let tail = slice_subrange(s, i + 2, end);
    assert(tail@ =~= s@.skip(i + 2));
    if tail.len() < 4 {
        return Err(Error::InvalidArmor);
    }
    let after = slice_subrange(tail, 4, tail.len());
    assert(after@ =~= tail@.skip(4));
    if !starts_with(after, "\n-----END PGP MESSAGE-----\n".as_bytes()) {
        return Err(Error::InvalidArmor);
    }
    let signs = slice_subrange(tail, 0, 4);
    assert(signs@ =~= tail@.take(4));
    let data = decode_base64(remove_breaks(body).as_slice());
    let sum = decode_base64(signs);
    match (data, sum) {
        (Some(data), Some(sum)) => {
            let mut expected: Vec<u8> = Vec::new();
            push_be(&mut expected, crc24(data.as_slice()) as u64, 3);
            assert(expected@ =~= checksum(data@));
            if same(&sum, &expected) {
                Ok((data, headers))
            } else {
                Err(Error::InvalidChecksum)
            }
        },
        _ => Err(Error::InvalidArmor),
    }
}

/// Whether no line break in `s` is followed by an octet that begins a checksum.
spec fn no_mark(s: Seq<u8>) -> bool {
    forall|j: int| 0 <= j < s.len() - 1 && #[trigger] s[j] == BREAK ==> s[j + 1] != PAD
}

proof fn lemma_lines(text: Seq<u8>)
    requires
        well_shaped(text),
    ensures
        no_mark(lines(text)),
        unbroken(lines(text)) == text,
        text.len() > 0 ==> lines(text).len() > 0 && lines(text)[0] == text[0],
        forall|i: int| 0 <= i < lines(text).len() ==> #[trigger] lines(text)[i] < 128,
    decreases text.len(),
{
    if text.len() <= WIDTH {
        lemma_unbroken(text);
    } else {
        let head = text.take(WIDTH as int);
        let tail = text.skip(WIDTH as int);
        assert(text =~= head + tail);
        assert(well_shaped(tail)) by {
            assert forall|i: int| 0 <= i < tail.len() implies 43 <= #[trigger] tail[i] < 128 && (i
                % 4 == 0 ==> tail[i] != PAD) by {
                assert(tail[i] == text[i + WIDTH]);
            }
        }
        lemma_lines(tail);
        let more = lines(tail);
        let all = lines(text);
        assert(all == head + seq![BREAK] + more);
        assert(more[0] == text[WIDTH as int]);
        assert forall|j: int| 0 <= j < all.len() - 1 && #[trigger] all[j] == BREAK implies all[j
            + 1] != PAD by {
            if j < WIDTH {
                assert(all[j] == text[j]);
            } else if j == WIDTH {
                assert(all[j + 1] == more[0]);
            } else {
                let k = j - WIDTH - 1;
                assert(all[j] == more[k]);
                assert(all[j + 1] == more[k + 1]);
            }
        }
        assert forall|i: int| 0 <= i < all.len() implies #[trigger] all[i] < 128 by {
            if i < WIDTH {
                assert(all[i] == text[i]);
            } else if i > WIDTH {
                assert(all[i] == more[i - WIDTH - 1]);
            }
        }
        lemma_unbroken(head);
        lemma_unbroken_line(head, more);
    }
}

proof fn lemma_unbroken_line(head: Seq<u8>, more: Seq<u8>)
    ensures
        unbroken(head + seq![BREAK] + more) == unbroken(head) + unbroken(more),
{
    let keep = |c: u8| c != BREAK;
    let one = seq![BREAK];
    Seq::filter_distributes_over_add(head, one, keep);
    Seq::filter_distributes_over_add(head + one, more, keep);
    assert(one.filter(keep) =~= Seq::empty()) by {
        reveal_with_fuel(Seq::filter, 2);
        assert(one.drop_last() =~= Seq::empty());
        assert(!keep(one.last()));
    }
    assert(head.filter(keep) + Seq::<u8>::empty() =~= head.filter(keep));
}

proof fn lemma_unbroken(text: Seq<u8>)
    requires
        forall|i: int| 0 <= i < text.len() ==> #[trigger] text[i] != BREAK,
    ensures
        unbroken(text) == text,
    decreases text.len(),
{
    reveal(Seq::filter);
    if text.len() > 0 {
        let front = text.drop_last();
        assert forall|i: int| 0 <= i < front.len() implies #[trigger] front[i] != BREAK by {
            assert(front[i] == text[i]);
        }
        lemma_unbroken(front);
        assert(text =~= front.push(text.last()));
    }
}

proof fn lemma_mark_found(body: Seq<u8>, rest: Seq<u8>, i: int)
    requires
        no_mark(body),
        0 <= i <= body.len(),
    ensures
        mark_at(body + seq![BREAK, PAD] + rest, i) == Some(body.len() as int),
    decreases body.len() - i,
{
    let s = body + seq![BREAK, PAD] + rest;
    if i < body.len() {
        assert(s[i] == body[i]);
        if i + 1 < body.len() {
            assert(s[i + 1] == body[i + 1]);
        } else {
            assert(s[i + 1] == BREAK);
        }
        lemma_mark_found(body, rest, i + 1);
    } else {
        assert(s[i] == BREAK && s[i + 1] == PAD);
    }
}

proof fn lemma_checksum(data: Seq<u8>)
    ensures
        checksum(data).len() == 3,
        base64(checksum(data)).len() == 4,
        base64_decoded(base64(checksum(data))) == Some(checksum(data)),
{
    let crc = remainder(data);
    assert(crc & 0xFF_FFFF < 0x100_0000) by (bit_vector);
    assert(pow256(3) == 0x100_0000) by {
        reveal_with_fuel(pow256, 4);
    }
    lemma_be_value_of_bytes(spec_crc24(data) as nat, 3);
    law_base64_round_trip(checksum(data));
    assert(checksum(data).skip(3) =~= Seq::empty());
    assert(base64(checksum(data).skip(3)).len() == 0);
}

/// Text is taken apart at its front into the pieces that it was put together from.
proof fn lemma_front(begin: Seq<u8>, lines: Seq<u8>, s: Seq<u8>)
    ensures
        begins_with(begin + lines + seq![BREAK] + s, begin),
        (begin + lines + seq![BREAK] + s).skip(begin.len() as int) == lines + (seq![BREAK] + s),
        after_headers(seq![BREAK] + s) == Some(s),
{
    let text = begin + lines + seq![BREAK] + s;
    assert(text.take(begin.len() as int) =~= begin);
    assert(text.skip(begin.len() as int) =~= lines + (seq![BREAK] + s));
    assert((seq![BREAK] + s).skip(1) =~= s);
}

/// Text is taken apart at its back into the pieces that it was put together from.
proof fn lemma_back(body: Seq<u8>, sum: Seq<u8>, end: Seq<u8>)
    requires
        sum.len() == 4,
    ensures
        ({
            let s = body + seq![BREAK, PAD] + (sum + end);
            let tail = s.skip(body.len() as int + 2);
            &&& s.take(body.len() as int) == body
            &&& tail.len() >= 4
            &&& tail.take(4) == sum
            &&& begins_with(tail.skip(4), end)
        }),
{
    let s = body + seq![BREAK, PAD] + (sum + end);
    let tail = s.skip(body.len() as int + 2);
    assert(s.take(body.len() as int) =~= body);
    assert(tail =~= sum + end);
    assert(tail.take(4) =~= sum);
    assert(tail.skip(4) =~= end);
    assert(end.take(end.len() as int) =~= end);
}

proof fn lemma_regroup(
    begin: Seq<u8>,
    lines: Seq<u8>,
    body: Seq<u8>,
    sum: Seq<u8>,
    end: Seq<u8>,
)
    ensures
        begin + lines + seq![BREAK] + body + seq![BREAK, PAD] + sum + end == begin + lines
            + seq![BREAK] + (body + seq![BREAK, PAD] + (sum + end)),
{
    assert(begin + lines + seq![BREAK] + body + seq![BREAK, PAD] + sum + end =~= begin + lines
        + seq![BREAK] + (body + seq![BREAK, PAD] + (sum + end)));
}

proof fn lemma_only_breaks(k: nat)
    ensures
        unbroken(breaks(k)) == Seq::<u8>::empty(),
    decreases k,
{
    reveal(Seq::filter);
    if k > 0 {
        lemma_only_breaks((k - 1) as nat);
        assert(breaks(k).drop_last() =~= breaks((k - 1) as nat));
        assert(breaks(k).last() == BREAK);
    }
}

/// Line breaks before text change nothing about what it holds.
proof fn lemma_leading_breaks(k: nat, body: Seq<u8>)
    requires
        no_mark(body),
        body.len() > 0 ==> body[0] != PAD,
    ensures
        no_mark(breaks(k) + body),
        unbroken(breaks(k) + body) == unbroken(body),
{
    let s = breaks(k) + body;
    assert forall|j: int| 0 <= j < s.len() - 1 && #[trigger] s[j] == BREAK implies s[j + 1]
        != PAD by {
        if j + 1 >= k {
            assert(s[j + 1] == body[j + 1 - k]);
            if j >= k {
                assert(s[j] == body[j - k]);
            }
        }
    }
    Seq::filter_distributes_over_add(breaks(k), body, |c: u8| c != BREAK);
    lemma_only_breaks(k);
    assert(Seq::<u8>::empty() + unbroken(body) =~= unbroken(body));
}

/// What was armored is read back: the octets, under any headers that hold nothing but line
/// breaks behind an empty line. Headers on one line each are such headers.
#[verifier::spinoff_prover]
pub proof fn law_armor_round_trip(data: Seq<u8>, hs: Seq<HeaderModel>)
    requires
        ends_at_empty_line(header_lines(hs)),
    ensures
        unarmored(armored(data, hs)) == Ok::<Seq<u8>, Error>(data),
{
    let body = lines(base64(data));
    let sum = base64(checksum(data));
    let tail = sum + end_line();
    let s = body + seq![BREAK, PAD] + tail;
    lemma_regroup(begin_line(), header_lines(hs), body, sum, end_line());
    lemma_front(begin_line(), header_lines(hs), s);
    lemma_header_lines_end(hs);
    let k = lemma_lines_skipped(header_lines(hs), s);
    let all = breaks(k) + body;
    assert(no_mark(all) && base64_decoded(unbroken(all)) == Some(data)) by {
        lemma_base64_shape(data);
        lemma_lines(base64(data));
        law_base64_round_trip(data);
        lemma_leading_breaks(k, body);
    }
    lemma_checksum(data);
    lemma_mark_found(all, tail, 0);
    lemma_back(all, sum, end_line());
    assert(breaks(k) + s =~= all + seq![BREAK, PAD] + tail);
}

/// Text whose checksum is not that of its octets is refused.
#[verifier::spinoff_prover]
pub proof fn law_wrong_checksum_is_refused(data: Seq<u8>, hs: Seq<HeaderModel>, sum: Seq<u8>)
    requires
        ends_at_empty_line(header_lines(hs)),
        sum.len() == 3,
        sum != checksum(data),
    ensures
        unarmored(
            begin_line() + header_lines(hs) + seq![BREAK] + lines(base64(data)) + seq![BREAK, PAD]
                + base64(sum) + end_line(),
        ) == Err::<Seq<u8>, Error>(Error::InvalidChecksum),
{
    let body = lines(base64(data));
    let signs = base64(sum);
    let tail = signs + end_line();
    let s = body + seq![BREAK, PAD] + tail;
    lemma_regroup(begin_line(), header_lines(hs), body, signs, end_line());
    lemma_front(begin_line(), header_lines(hs), s);
    lemma_header_lines_end(hs);
    let k = lemma_lines_skipped(header_lines(hs), s);
    let all = breaks(k) + body;
    assert(no_mark(all) && base64_decoded(unbroken(all)) == Some(data)) by {
        lemma_base64_shape(data);
        lemma_lines(base64(data));
        law_base64_round_trip(data);
        lemma_leading_breaks(k, body);
    }
    assert(signs.len() == 4 && base64_decoded(signs) == Some(sum)) by {
        law_base64_round_trip(sum);
        assert(sum.skip(3) =~= Seq::empty());
        assert(base64(sum.skip(3)).len() == 0);
    }
    lemma_mark_found(all, tail, 0);
    lemma_back(all, signs, end_line());
    assert(breaks(k) + s =~= all + seq![BREAK, PAD] + tail);
}

/// Text in which an octet was changed, wherever it stands, and the checksum was not, is
/// refused.
pub proof fn law_changed_octet_is_noticed(data: Seq<u8>, hs: Seq<HeaderModel>, i: int, b: u8)
    requires
        ends_at_empty_line(header_lines(hs)),
        0 <= i < data.len(),
        data[i] != b,
    ensures
        unarmored(
            begin_line() + header_lines(hs) + seq![BREAK] + lines(base64(data.update(i, b))) + seq![
                BREAK,
                PAD,
            ] + base64(checksum(data)) + end_line(),
        ) == Err::<Seq<u8>, Error>(Error::InvalidChecksum),
{
    let other = data.update(i, b);
    law_checksum_notices_a_changed_octet(data, i, b);
    law_checksum_takes_in_every_octet(data, 0);
    law_checksum_takes_in_every_octet(other, 0);
    assert(pow256(3) == 0x100_0000) by {
        reveal_with_fuel(pow256, 4);
    }
    lemma_be_value_of_bytes(spec_crc24(data) as nat, 3);
    lemma_be_value_of_bytes(spec_crc24(other) as nat, 3);
    law_wrong_checksum_is_refused(other, hs, checksum(data));
}

/// Text that is read has the parts of armored text: it begins and ends with its lines, the
/// signs between the empty line and the checksum stand for the octets, and the four signs of
/// the checksum for theirs.
pub proof fn law_read_text_has_its_parts(text: Seq<u8>)
    ensures
        unarmored(text) matches Ok(data) ==> exists|
            headers: Seq<u8>,
            body: Seq<u8>,
            sum: Seq<u8>,
            rest: Seq<u8>,
        |
            {
                &&& text == #[trigger] parts(headers, body, sum, rest)
                &&& sum.len() == 4
                &&& base64_decoded(unbroken(body)) == Some(data)
                &&& base64_decoded(sum) == Some(checksum(data))
            },
{
    if let Ok(data) = unarmored(text) {
        let inner = text.skip(begin_line().len() as int);
        let s = after_headers(inner)->Some_0;
        let n = lemma_after_headers_is_a_suffix(inner);
        let headers = inner.take(n);
        lemma_mark_at(s, 0);
        let i = mark_at(s, 0)->Some_0;
        let tail = s.skip(i + 2);
        let body = s.take(i);
        let sum = tail.take(4);
        let end = tail.skip(4);
        let rest = end.skip(end_line().len() as int);
        assert(text =~= text.take(begin_line().len() as int) + inner);
        assert(inner =~= headers + seq![BREAK] + s);
        assert(s =~= body + seq![BREAK, PAD] + tail);
        assert(tail =~= sum + end);
        assert(end =~= end_line() + rest);
        lemma_put_together(begin_line(), headers, body, sum, end_line(), rest);
        assert(text == parts(headers, body, sum, rest));
    }
}

/// Text that has its parts is read, however its lines are broken and whatever comes after
/// its end: its octets are what its signs stand for, if its checksum is theirs. Text that
/// does not begin as it must, or does not end as it must, is refused.
#[verifier::spinoff_prover]
pub proof fn law_text_with_its_parts_is_read(
    headers: Seq<u8>,
    body: Seq<u8>,
    sum: Seq<u8>,
    rest: Seq<u8>,
    other: Seq<u8>,
)
    requires
        ends_at_empty_line(headers),
        headers.len() > 0 ==> headers.last() == 10,
        body.len() > 0 ==> body[0] != 61,
        forall|j: int| 0 <= j < body.len() - 1 && #[trigger] body[j] == 10 ==> body[j + 1] != 61,
        sum.len() == 4,
        !begins_with(other, end_line()),
    ensures
        unarmored(parts(headers, body, sum, rest)) == match (
            base64_decoded(unbroken(body)),
            base64_decoded(sum),
        ) {
            (Some(data), Some(found)) => if found == checksum(data) {
                Ok(data)
            } else {
                Err(Error::InvalidChecksum)
            },
            _ => Err(Error::InvalidArmor),
        },
        unarmored(
            begin_line() + headers + seq![BREAK] + body + seq![BREAK, PAD] + sum + other,
        ) == Err::<Seq<u8>, Error>(Error::InvalidArmor),
        !begins_with(other, begin_line()) ==> unarmored(other) == Err::<Seq<u8>, Error>(
            Error::InvalidArmor,
        ),
{
    lemma_end_is_begun(rest);
    lemma_read_parts(headers, body, sum, end_line() + rest);
    lemma_read_parts(headers, body, sum, other);
    lemma_regroup(begin_line(), headers, body, sum, end_line() + rest);
    lemma_regroup(begin_line(), headers, body, sum, other);
    assert(parts(headers, body, sum, rest) =~= begin_line() + headers + seq![BREAK] + body + seq![
        BREAK,
        PAD,
    ] + sum + (end_line() + rest));
}

proof fn lemma_end_is_begun(rest: Seq<u8>)
    ensures
        begins_with(end_line() + rest, end_line()),
{
    assert((end_line() + rest).take(end_line().len() as int) =~= end_line());
}

proof fn lemma_read_parts(headers: Seq<u8>, body: Seq<u8>, sum: Seq<u8>, end: Seq<u8>)
    requires
        ends_at_empty_line(headers),
        headers.len() > 0 ==> headers.last() == BREAK,
        body.len() > 0 ==> body[0] != PAD,
        no_mark(body),
        sum.len() == 4,
    ensures
        unarmored(begin_line() + headers + seq![BREAK] + body + seq![BREAK, PAD] + sum + end)
            == if !begins_with(end, end_line()) {
            Err(Error::InvalidArmor)
        } else {
            match (base64_decoded(unbroken(body)), base64_decoded(sum)) {
                (Some(data), Some(found)) => if found == checksum(data) {
                    Ok(data)
                } else {
                    Err(Error::InvalidChecksum)
                },
                _ => Err(Error::InvalidArmor),
            }
        },
{
    let tail = sum + end;
    let s = body + seq![BREAK, PAD] + tail;
    lemma_regroup(begin_line(), headers, body, sum, end);
    lemma_front(begin_line(), headers, s);
    let k = lemma_lines_skipped(headers, s);
    let all = breaks(k) + body;
    lemma_leading_breaks(k, body);
    lemma_mark_found(all, tail, 0);
    lemma_back(all, sum, end);
    let found = breaks(k) + s;
    assert(found =~= all + seq![BREAK, PAD] + tail);
    assert(found.skip(all.len() as int + 2) =~= tail);
    assert(tail.skip(4) =~= end);
}

/// Text put together from its parts.
pub open spec fn parts(headers: Seq<u8>, body: Seq<u8>, sum: Seq<u8>, rest: Seq<u8>) -> Seq<u8> {
    begin_line() + headers + seq![BREAK] + body + seq![BREAK, PAD] + sum + end_line() + rest
}

proof fn lemma_put_together(
    begin: Seq<u8>,
    headers: Seq<u8>,
    body: Seq<u8>,
    sum: Seq<u8>,
    end: Seq<u8>,
    rest: Seq<u8>,
)
    ensures
        begin + (headers + seq![BREAK] + (body + seq![BREAK, PAD] + (sum + (end + rest)))) == begin
            + headers + seq![BREAK] + body + seq![BREAK, PAD] + sum + end + rest,
{
    assert(begin + (headers + seq![BREAK] + (body + seq![BREAK, PAD] + (sum + (end + rest))))
        =~= begin + headers + seq![BREAK] + body + seq![BREAK, PAD] + sum + end + rest);
}

proof fn lemma_mark_at(s: Seq<u8>, i: int)
    requires
        0 <= i,
    ensures
        mark_at(s, i) matches Some(j) ==> i <= j && j + 1 < s.len() && s[j] == BREAK && s[j + 1]
            == PAD,
    decreases s.len() - i,
{
    if i + 1 < s.len() && !(s[i] == BREAK && s[i + 1] == PAD) {
        lemma_mark_at(s, i + 1);
    }
}

proof fn lemma_after_headers_is_a_suffix(s: Seq<u8>) -> (n: int)
    requires
        after_headers(s) is Some,
    ensures
        0 <= n < s.len(),
        s[n] == BREAK,
        after_headers(s) == Some(s.skip(n + 1)),
    decreases s.len(),
{
    if s[0] == BREAK {
        0
    } else {
        let i = break_at(s, 0)->Some_0;
        let tail = s.skip(i + 1);
        let n = lemma_after_headers_is_a_suffix(tail);
        assert(tail.skip(n + 1) =~= s.skip(n + i + 2));
        n + i + 1
    }
}

/// A message that comes back from its octets comes back from its armored text.
pub proof fn law_armored_message_round_trip(m: MessageModel, hs: Seq<HeaderModel>)
    requires
        m.comes_back(),
        ends_at_empty_line(header_lines(hs)),
    ensures
        unarmored(armored(m.wire()->Ok_0, hs)) == m.wire(),
        message_of(unarmored(armored(m.wire()->Ok_0, hs))->Ok_0) == Ok::<MessageModel, Error>(m),
{
    law_armor_round_trip(m.wire()->Ok_0, hs);
}

/// Plain headers come back from armored text, as they are and in their order.
pub proof fn law_armor_headers_round_trip(
    data: Seq<u8>,
    hs: Seq<HeaderModel>,
    found: Seq<HeaderModel>,
)
    requires
        in_order(hs),
        forall|i: int| 0 <= i < hs.len() ==> plain(#[trigger] hs[i]),
        collected(found, text_headers(armored(data, hs))),
    ensures
        unarmored(armored(data, hs)) == Ok::<Seq<u8>, Error>(data),
        found == hs,
{
    let body = lines(base64(data));
    let sum = base64(checksum(data));
    let s = body + seq![BREAK, PAD] + (sum + end_line());
    lemma_one_line_headers(hs);
    law_armor_round_trip(data, hs);
    lemma_regroup(begin_line(), header_lines(hs), body, sum, end_line());
    lemma_front(begin_line(), header_lines(hs), s);
    lemma_headers_read(hs, seq![BREAK] + s);
    assert(hs + Seq::<HeaderModel>::empty() =~= hs);
    law_ordered_entries_are_the_headers(found, hs);
}

proof fn lemma_ascii_is_utf8(s: Seq<u8>)
    requires
        forall|i: int| 0 <= i < s.len() ==> #[trigger] s[i] < 128,
    ensures
        valid_utf8(s),
{
    let chars = Seq::new(s.len(), |i: int| s[i] as char);
    assert(is_ascii_chars(chars));
    is_ascii_chars_encode_utf8(chars);
    assert(encode_utf8(chars) =~= s);
    encode_utf8_valid_utf8(chars);
}

/// Whether a header's key and value are text.
pub open spec fn is_text(h: HeaderModel) -> bool {
    valid_utf8(h.0) && valid_utf8(h.1)
}

proof fn lemma_header_lines_are_utf8(hs: Seq<HeaderModel>)
    requires
        forall|i: int| 0 <= i < hs.len() ==> is_text(#[trigger] hs[i]),
    ensures
        valid_utf8(header_lines(hs)),
    decreases hs.len(),
{
    if hs.len() == 0 {
        lemma_ascii_is_utf8(header_lines(hs));
    } else {
        let front = hs.drop_last();
        let h = hs.last();
        assert(is_text(hs[hs.len() - 1]));
        assert forall|i: int| 0 <= i < front.len() implies is_text(#[trigger] front[i]) by {
            assert(front[i] == hs[i]);
        }
        lemma_header_lines_are_utf8(front);
        lemma_ascii_is_utf8(seq![COLON, SPACE]);
        lemma_ascii_is_utf8(seq![BREAK]);
        valid_utf8_concat(h.0, seq![COLON, SPACE]);
        valid_utf8_concat(h.0 + seq![COLON, SPACE], h.1);
        valid_utf8_concat(h.0 + seq![COLON, SPACE] + h.1, seq![BREAK]);
        valid_utf8_concat(header_lines(front), header_line(h));
    }
}

/// Armored text is text, whatever the octets are.
pub proof fn law_armored_is_utf8(data: Seq<u8>, hs: Seq<HeaderModel>)
    requires
        forall|i: int| 0 <= i < hs.len() ==> is_text(#[trigger] hs[i]),
    ensures
        valid_utf8(armored(data, hs)),
{
    let body = lines(base64(data));
    let sum = base64(checksum(data));
    lemma_base64_shape(data);
    lemma_lines(base64(data));
    lemma_base64_shape(checksum(data));
    lemma_ascii_is_utf8(body);
    lemma_ascii_is_utf8(sum);
    lemma_ascii_is_utf8(seq![BREAK]);
    lemma_ascii_is_utf8(seq![BREAK, PAD]);
    lemma_header_lines_are_utf8(hs);
    encode_utf8_valid_utf8("-----BEGIN PGP MESSAGE-----\n"@);
    encode_utf8_valid_utf8("\n-----END PGP MESSAGE-----\n"@);
    let a = begin_line() + header_lines(hs);
    valid_utf8_concat(begin_line(), header_lines(hs));
    let b = a + seq![BREAK];
    valid_utf8_concat(a, seq![BREAK]);
    let c = b + body;
    valid_utf8_concat(b, body);
    let d = c + seq![BREAK, PAD];
    valid_utf8_concat(c, seq![BREAK, PAD]);
    let e = d + sum;
    valid_utf8_concat(d, sum);
    valid_utf8_concat(e, end_line());
}

impl Message {
    /// Writes the message as armored text.
    pub fn to_armored_writer(&self, writer: &mut Vec<u8>, headers: Option<&Headers>) -> (r: Result<
        (),
        Error,
    >)
        ensures
            match self@.wire() {
                Ok(bytes) => r is Ok && final(writer)@ == old(writer)@ + armored(
                    bytes,
                    header_models(headers),
                ),
                Err(e) => r == Err::<(), Error>(e) && final(writer)@ == old(writer)@,
            },
    {
        match self.to_bytes() {
            Ok(bytes) => {
                push_armored(writer, bytes.as_slice(), headers);
                Ok(())
            },
            Err(e) => Err(e),
        }
    }

    /// The message as armored text.
    pub fn to_armored_bytes(&self, headers: Option<&Headers>) -> (r: Result<Vec<u8>, Error>)
        ensures
            match self@.wire() {
                Ok(bytes) => r matches Ok(x) && x@ == armored(bytes, header_models(headers)),
                Err(e) => r == Err::<Vec<u8>, Error>(e),
            },
    {
        let mut buf: Vec<u8> = Vec::new();
        match self.to_armored_writer(&mut buf, headers) {
            Ok(()) => {
                assert(self@.wire() matches Ok(bytes) && buf@ =~= armored(
                    bytes,
                    header_models(headers),
                ));
                Ok(buf)
            },
            Err(e) => Err(e),
        }
    }

    /// The message as a string of armored text.
    pub fn to_armored_string(&self, headers: Option<&Headers>) -> (r: Result<String, Error>)
        ensures
            match self@.wire() {
                Ok(bytes) => r matches Ok(x) && encode_utf8(x@) == armored(
                    bytes,
                    header_models(headers),
                ),
                Err(e) => r == Err::<String, Error>(e),
            },
    {
        let bytes = match self.to_armored_bytes(headers) {
            Ok(bytes) => bytes,
            Err(e) => {
                return Err(e);
            },
        };
        proof {
            if let Some(h) = headers {
                h.lemma_is_text();
            }
            law_armored_is_utf8(self@.wire()->Ok_0, header_models(headers));
        }
        match core::str::from_utf8(bytes.as_slice()) {
            Ok(text) => Ok(text.to_string()),
            Err(_) => Err(Error::InvalidUtf8),
        }
    }

    /// Reads the message that armored text holds, and the headers of the text.
    pub fn from_armor_single(text: &[u8]) -> (r: Result<(Message, Headers), Error>)
        ensures
            match unarmored(text@) {
                Ok(bytes) => match message_of(bytes) {
                    Ok(m) => r matches Ok((x, h)) && x@ == m && collected(
                        h@,
                        text_headers(text@),
                    ),
                    Err(e) => r == Err::<(Message, Headers), Error>(e),
                },
                Err(e) => r == Err::<(Message, Headers), Error>(e),
            },
    {
        match read_armored(text) {
            Ok((bytes, headers)) => match Message::from_bytes(bytes.as_slice()) {
                Ok(message) => Ok((message, headers)),
                Err(e) => Err(e),
            },
            Err(e) => Err(e),
        }
    }
}

} // verus!
