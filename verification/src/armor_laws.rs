//! What armored text is, told sign by sign and line by line.
use crate::armor::{
    armored, begin_line, checksum, header_models, lines, text_headers, unbroken,
};
use crate::base64::{base64, base64_decoded, quad, sign_value, spec_sign};
use crate::be::be_bytes;
use crate::crc24::{law_checksum_takes_in_every_octet, spec_crc24};
use crate::header_text::{header_entries, header_line, header_lines, BREAK};
use crate::headers::{precedes, HeaderModel, Headers};
use vstd::prelude::*;
use vstd::utf8::encode_utf8;

verus! {

/// The 64 signs, in the order of the values that they stand for.
pub open spec fn alphabet() -> Seq<char> {
    "ABCDEFGHIJKLMNOPQRSTUVWXYZabcdefghijklmnopqrstuvwxyz0123456789+/"@
}

/// Each value has its sign in the alphabet, and each sign its value; no other octet is a
/// sign.
pub proof fn law_signs_of_the_alphabet(v: int, c: u8)
    ensures
        alphabet().len() == 64,
        0 <= v < 64 ==> spec_sign(v) == alphabet()[v] as u8 && sign_value(alphabet()[v] as u8)
            == Some(v),
        sign_value(c) matches Some(x) ==> 0 <= x < 64 && alphabet()[x] as u8 == c,
        sign_value(c) is None ==> forall|x: int| 0 <= x < 64 ==> #[trigger] alphabet()[x] as u8 != c,
{
    reveal_strlit("ABCDEFGHIJKLMNOPQRSTUVWXYZabcdefghijklmnopqrstuvwxyz0123456789+/");
    reveal(spec_sign);
    reveal(sign_value);
    assert forall|x: int| 0 <= x < 64 implies #[trigger] alphabet()[x] as u8 == spec_sign(x) by {
        lemma_alphabet(x);
    }
}

proof fn lemma_alphabet(x: int)
    requires
        0 <= x < 64,
    ensures
        alphabet()[x] as u8 == spec_sign(x),
{
    reveal_strlit("ABCDEFGHIJKLMNOPQRSTUVWXYZabcdefghijklmnopqrstuvwxyz0123456789+/");
    reveal(spec_sign);
}

/// Three octets are four signs, each for six of their bits; two are three signs and one
/// that fills up, and one is two signs and two that fill up, with zeros for the bits that
/// there are not. What follows whole threes follows their signs.
pub proof fn law_six_bits_for_each_sign(a: u8, b: u8, c: u8, whole: Seq<u8>, more: Seq<u8>)
    requires
        whole.len() % 3 == 0,
    ensures
        base64(Seq::empty()) == Seq::<u8>::empty(),
        base64(whole + more) == base64(whole) + base64(more),
        ({
            let t = base64(seq![a, b, c]);
            &&& t.len() == 4
            &&& sign_value(t[0]) matches Some(w)
            &&& sign_value(t[1]) matches Some(x)
            &&& sign_value(t[2]) matches Some(y)
            &&& sign_value(t[3]) matches Some(z)
            &&& w * 0x4_0000 + x * 0x1000 + y * 0x40 + z == a * 0x1_0000 + b * 0x100 + c
        }),
        ({
            let t = base64(seq![a, b]);
            &&& t.len() == 4
            &&& sign_value(t[0]) matches Some(w)
            &&& sign_value(t[1]) matches Some(x)
            &&& sign_value(t[2]) matches Some(y)
            &&& t[3] == 61
            &&& w * 0x1000 + x * 0x40 + y == (a * 0x100 + b) * 4
        }),
        ({
            let t = base64(seq![a]);
            &&& t.len() == 4
            &&& sign_value(t[0]) matches Some(w)
            &&& sign_value(t[1]) matches Some(x)
            &&& t[2] == 61
            &&& t[3] == 61
            &&& w * 0x40 + x == a * 16
        }),
{
    lemma_whole_threes(whole, more);
    let n = a * 65536 + b * 256 + c;
    lemma_signs(n);
    assert(seq![a, b, c].skip(3) =~= Seq::empty());
    assert(base64(seq![a, b, c].skip(3)) =~= Seq::empty());
    assert(base64(seq![a, b, c]) =~= quad(n));
    lemma_signs(a * 65536 + b * 256);
    lemma_signs(a * 65536);
}

proof fn lemma_signs(n: int)
    requires
        0 <= n < 16777216,
    ensures
        sign_value(quad(n)[0]) == Some(n / 262144),
        sign_value(quad(n)[1]) == Some(n / 4096 % 64),
        sign_value(quad(n)[2]) == Some(n / 64 % 64),
        sign_value(quad(n)[3]) == Some(n % 64),
        (n / 262144) * 262144 + (n / 4096 % 64) * 4096 + (n / 64 % 64) * 64 + n % 64 == n,
{
    law_signs_of_the_alphabet(n / 262144, 0);
    law_signs_of_the_alphabet(n / 4096 % 64, 0);
    law_signs_of_the_alphabet(n / 64 % 64, 0);
    law_signs_of_the_alphabet(n % 64, 0);
}

proof fn lemma_whole_threes(a: Seq<u8>, b: Seq<u8>)
    requires
        a.len() % 3 == 0,
    ensures
        base64(a + b) == base64(a) + base64(b),
    decreases a.len(),
{
    if a.len() == 0 {
        assert(a + b =~= b);
        assert(base64(a) + base64(b) =~= base64(b));
    } else {
        let s = a + b;
        lemma_whole_threes(a.skip(3), b);
        assert(s.skip(3) =~= a.skip(3) + b);
        assert(s[0] == a[0] && s[1] == a[1] && s[2] == a[2]);
        let q = quad(a[0] * 65536 + a[1] * 256 + a[2]);
        assert(q + (base64(a.skip(3)) + base64(b)) =~= q + base64(a.skip(3)) + base64(b));
    }
}

/// Whether text comes in fours of signs, of which only the last may be filled up.
pub open spec fn in_fours(text: Seq<u8>) -> bool {
    &&& text.len() % 4 == 0
    &&& forall|i: int|
        0 <= i < text.len() ==> {
            ||| sign_value(#[trigger] text[i]) is Some
            ||| i == text.len() - 1 && text[i] == 61
            ||| i == text.len() - 2 && text[i] == 61 && text[text.len() - 1] == 61
        }
}

/// Text stands for octets if and only if it comes in fours of signs, of which only the last
/// may be filled up.
pub proof fn law_text_that_can_be_decoded(text: Seq<u8>)
    ensures
        base64_decoded(text) is Some <==> in_fours(text),
    decreases text.len(),
{
    law_signs_of_the_alphabet(0, 61);
    assert(sign_value(61) is None && sign_value(65) is Some) by {
        reveal(sign_value);
    }
    if text.len() >= 4 {
        let tail = text.skip(4);
        law_text_that_can_be_decoded(tail);
        if text.len() == 4 {
            assert(tail =~= Seq::empty());
            if in_fours(text) {
                assert(sign_value(text[0]) is Some && sign_value(text[1]) is Some);
            }
            if base64_decoded(text) is Some {
                assert forall|i: int| 0 <= i < text.len() implies {
                    ||| sign_value(#[trigger] text[i]) is Some
                    ||| i == text.len() - 1 && text[i] == 61
                    ||| i == text.len() - 2 && text[i] == 61 && text[text.len() - 1] == 61
                } by {
                    assert(i == 0 || i == 1 || i == 2 || i == 3);
                }
            } else {
                if in_fours(text) {
                    assert(sign_value(text[2]) is Some || text[2] == 61);
                    assert(sign_value(text[3]) is Some || text[3] == 61);
                }
            }
        } else {
            if in_fours(text) {
                assert(sign_value(text[0]) is Some && sign_value(text[1]) is Some);
                if text.len() >= 8 {
                    assert(sign_value(text[2]) is Some && sign_value(text[3]) is Some);
                }
                assert forall|i: int| 0 <= i < tail.len() implies {
                    ||| sign_value(#[trigger] tail[i]) is Some
                    ||| i == tail.len() - 1 && tail[i] == 61
                    ||| i == tail.len() - 2 && tail[i] == 61 && tail[tail.len() - 1] == 61
                } by {
                    assert(tail[i] == text[i + 4]);
                    assert(tail[tail.len() - 1] == text[text.len() - 1]);
                }
            }
            if base64_decoded(text) is Some {
                assert forall|i: int| 0 <= i < text.len() implies {
                    ||| sign_value(#[trigger] text[i]) is Some
                    ||| i == text.len() - 1 && text[i] == 61
                    ||| i == text.len() - 2 && text[i] == 61 && text[text.len() - 1] == 61
                } by {
                    if i >= 4 {
                        assert(tail[i - 4] == text[i]);
                        assert(tail[tail.len() - 1] == text[text.len() - 1]);
                    } else {
                        assert(i == 0 || i == 1 || i == 2 || i == 3);
                    }
                }
            }
        }
    } else if text.len() > 0 {
        assert(text.len() % 4 != 0);
    }
}

/// Text is broken after every 64 signs, and nowhere else.
pub proof fn law_lines_of_64_signs(line: Seq<u8>, more: Seq<u8>, short: Seq<u8>)
    requires
        line.len() == 64,
        more.len() > 0,
        short.len() <= 64,
    ensures
        lines(line + more) == line + seq![10u8] + lines(more),
        lines(short) == short,
{
    let text = line + more;
    assert(text.take(64) =~= line);
    assert(text.skip(64) =~= more);
}

/// Armored text, from its first line to its last: the headers, an empty line, the signs for
/// the octets in lines, the four signs for the three octets of their checksum, and the end.
pub proof fn law_armored_line_by_line(data: Seq<u8>, hs: Seq<HeaderModel>)
    ensures
        ({
            let crc = spec_crc24(data) as int;
            armored(data, hs) == encode_utf8("-----BEGIN PGP MESSAGE-----\n"@) + header_lines(hs)
                + seq![10u8] + lines(base64(data)) + seq![10u8, 61u8] + base64(
                seq![(crc / 0x1_0000) as u8, (crc / 0x100 % 0x100) as u8, (crc % 0x100) as u8],
            ) + encode_utf8("\n-----END PGP MESSAGE-----\n"@)
        }),
{
    let crc = spec_crc24(data);
    reveal_with_fuel(be_bytes, 4);
    assert(crc as int / 256 / 256 % 256 == crc as int / 0x1_0000) by {
        lemma_checksum_is_short(data);
    }
    assert(checksum(data) =~= seq![
        (crc as int / 0x1_0000) as u8,
        (crc as int / 0x100 % 0x100) as u8,
        (crc as int % 0x100) as u8,
    ]);
}

proof fn lemma_checksum_is_short(data: Seq<u8>)
    ensures
        spec_crc24(data) < 0x100_0000,
{
    law_checksum_takes_in_every_octet(data, 0);
}

/// Each header is a line of its own: the key, a colon and a space, and the value.
pub proof fn law_header_lines_one_by_one(
    a: Seq<HeaderModel>,
    b: Seq<HeaderModel>,
    h: HeaderModel,
)
    ensures
        header_lines(a + b) == header_lines(a) + header_lines(b),
        header_lines(seq![h]) == h.0 + seq![58u8, 32u8] + h.1 + seq![10u8],
    decreases b.len(),
{
    assert(seq![h].drop_last() =~= Seq::empty());
    assert(header_lines(seq![h].drop_last()) =~= Seq::empty());
    assert(Seq::<u8>::empty() + header_line(h) =~= header_line(h));
    if b.len() == 0 {
        assert(a + b =~= a);
        assert(header_lines(a) + header_lines(b) =~= header_lines(a));
    } else {
        law_header_lines_one_by_one(a, b.drop_last(), h);
        assert((a + b).drop_last() =~= a + b.drop_last());
        assert((a + b).last() == b.last());
        assert(header_lines(a + b) =~= header_lines(a) + header_lines(b));
    }
}

/// A key comes before another if and only if, behind what they begin with in common, it
/// ends or has the smaller octet.
pub proof fn law_dictionary_order(a: Seq<u8>, b: Seq<u8>)
    ensures
        precedes(a, b) <==> exists|n: int|
            {
                &&& 0 <= n <= a.len()
                &&& n < b.len()
                &&& #[trigger] a.take(n) == b.take(n)
                &&& n < a.len() ==> a[n] < b[n]
            },
    decreases a.len(),
{
    if a.len() > 0 && b.len() > 0 && a[0] == b[0] {
        let x = a.skip(1);
        let y = b.skip(1);
        law_dictionary_order(x, y);
        if precedes(a, b) {
            let n = choose|n: int|
                {
                    &&& 0 <= n <= x.len()
                    &&& n < y.len()
                    &&& #[trigger] x.take(n) == y.take(n)
                    &&& n < x.len() ==> x[n] < y[n]
                };
            assert(a.take(n + 1) =~= seq![a[0]] + x.take(n));
            assert(b.take(n + 1) =~= seq![b[0]] + y.take(n));
            assert(a.take(n + 1) == b.take(n + 1));
        }
        if exists|n: int|
            {
                &&& 0 <= n <= a.len()
                &&& n < b.len()
                &&& #[trigger] a.take(n) == b.take(n)
                &&& n < a.len() ==> a[n] < b[n]
            } {
            let n = choose|n: int|
                {
                    &&& 0 <= n <= a.len()
                    &&& n < b.len()
                    &&& #[trigger] a.take(n) == b.take(n)
                    &&& n < a.len() ==> a[n] < b[n]
                };
            assert(n > 0);
            assert(x.take(n - 1) =~= a.take(n).skip(1));
            assert(y.take(n - 1) =~= b.take(n).skip(1));
            assert(x.take(n - 1) == y.take(n - 1));
        }
    } else {
        assert(a.take(0) =~= b.take(0));
        if exists|n: int|
            {
                &&& 0 <= n <= a.len()
                &&& n < b.len()
                &&& #[trigger] a.take(n) == b.take(n)
                &&& n < a.len() ==> a[n] < b[n]
            } {
            let n = choose|n: int|
                {
                    &&& 0 <= n <= a.len()
                    &&& n < b.len()
                    &&& #[trigger] a.take(n) == b.take(n)
                    &&& n < a.len() ==> a[n] < b[n]
                };
            if n > 0 {
                assert(a.take(n)[0] == a[0]);
                assert(b.take(n)[0] == b[0]);
            }
        }
    }
}

/// The headers that are written are those that are given.
pub proof fn law_given_headers_are_written(h: &Headers)
    ensures
        header_models(Some(h)) == h@,
        header_models(None) == Seq::<HeaderModel>::empty(),
{
}

/// Of the octets of text only the line breaks are left out.
pub proof fn law_only_line_breaks_are_left_out(a: Seq<u8>, b: Seq<u8>, c: u8)
    ensures
        unbroken(Seq::empty()) == Seq::<u8>::empty(),
        unbroken(a + b) == unbroken(a) + unbroken(b),
        c == 10 ==> unbroken(seq![c]) == Seq::<u8>::empty(),
        c != 10 ==> unbroken(seq![c]) == seq![c],
{
    Seq::filter_distributes_over_add(a, b, |c: u8| c != BREAK);
    reveal_with_fuel(Seq::filter, 2);
    assert(seq![c].drop_last() =~= Seq::empty());
    assert(Seq::<u8>::empty().push(c) =~= seq![c]);
}

/// The headers of armored text stand behind its first line.
pub proof fn law_headers_stand_behind_the_first_line(s: Seq<u8>)
    ensures
        text_headers(begin_line() + s) == header_entries(s),
{
    assert((begin_line() + s).skip(begin_line().len() as int) =~= s);
}

} // verus!
