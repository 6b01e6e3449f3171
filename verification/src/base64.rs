//! Octets as text of letters, digits and two signs.
use vstd::prelude::*;

verus! {

/// The sign that stands for six bits.
#[verifier::opaque]
pub open spec fn spec_sign(v: int) -> u8 {
    if v < 26 {
        (65 + v) as u8
    } else if v < 52 {
        (97 + v - 26) as u8
    } else if v < 62 {
        (48 + v - 52) as u8
    } else if v == 62 {
        43
    } else {
        47
    }
}

/// The six bits that a sign stands for, if it does.
#[verifier::opaque]
pub open spec fn sign_value(c: u8) -> Option<int> {
    if 65 <= c <= 90 {
        Some(c - 65)
    } else if 97 <= c <= 122 {
        Some(c - 97 + 26)
    } else if 48 <= c <= 57 {
        Some(c - 48 + 52)
    } else if c == 43 {
        Some(62)
    } else if c == 47 {
        Some(63)
    } else {
        None
    }
}

/// The sign that fills up the last four.
pub const PAD: u8 = 61;

/// The four signs for three octets, given as one number.
pub open spec fn quad(n: int) -> Seq<u8> {
    seq![
        spec_sign(n / 262144),
        spec_sign(n / 4096 % 64),
        spec_sign(n / 64 % 64),
        spec_sign(n % 64),
    ]
}

/// The text for octets: four signs for every three, the last four filled up.
pub open spec fn base64(data: Seq<u8>) -> Seq<u8>
    decreases data.len(),
{
    if data.len() == 0 {
        Seq::empty()
    } else if data.len() == 1 {
        quad(data[0] * 65536).take(2) + seq![PAD, PAD]
    } else if data.len() == 2 {
        quad(data[0] * 65536 + data[1] * 256).take(3) + seq![PAD]
    } else {
        quad(data[0] * 65536 + data[1] * 256 + data[2]) + base64(data.skip(3))
    }
}

/// The number that signs stand for; none where one of them is not a sign.
pub open spec fn quad_value(a: u8, b: u8, c: u8, d: u8) -> Option<int> {
    match (sign_value(a), sign_value(b), sign_value(c), sign_value(d)) {
        (Some(x), Some(y), Some(z), Some(w)) => Some(x * 262144 + y * 4096 + z * 64 + w),
        _ => None,
    }
}

/// The octets that text stands for; none where it stands for none.
pub open spec fn base64_decoded(text: Seq<u8>) -> Option<Seq<u8>>
    decreases text.len(),
{
    if text.len() == 0 {
        Some(Seq::empty())
    } else if text.len() < 4 {
        None
    } else if text.len() == 4 && text[3] == PAD && text[2] == PAD {
        match quad_value(text[0], text[1], 65, 65) {
            Some(n) => Some(seq![(n / 65536) as u8]),
            None => None,
        }
    } else if text.len() == 4 && text[3] == PAD {
        match quad_value(text[0], text[1], text[2], 65) {
            Some(n) => Some(seq![(n / 65536) as u8, (n / 256 % 256) as u8]),
            None => None,
        }
    } else {
        match (quad_value(text[0], text[1], text[2], text[3]), base64_decoded(text.skip(4))) {
            (Some(n), Some(more)) => Some(
                seq![(n / 65536) as u8, (n / 256 % 256) as u8, (n % 256) as u8] + more,
            ),
            _ => None,
        }
    }
}

proof fn lemma_sign(v: int)
    requires
        0 <= v < 64,
    ensures
        sign_value(spec_sign(v)) == Some(v),
        43 <= spec_sign(v) < 128,
        spec_sign(v) != PAD,
        v == 0 ==> spec_sign(v) == 65,
{
    reveal(spec_sign);
    reveal(sign_value);
}

proof fn lemma_quad(n: int)
    requires
        0 <= n < 16777216,
    ensures
        quad(n).len() == 4,
        quad_value(quad(n)[0], quad(n)[1], quad(n)[2], quad(n)[3]) == Some(n),
        n % 64 == 0 ==> quad(n)[3] == 65,
        n % 4096 == 0 ==> quad(n)[2] == 65,
        forall|i: int| 0 <= i < 4 ==> 43 <= #[trigger] quad(n)[i] < 128 && quad(n)[i] != PAD,
{
    lemma_sign(n / 262144);
    lemma_sign(n / 4096 % 64);
    lemma_sign(n / 64 % 64);
    lemma_sign(n % 64);
}

proof fn lemma_octets(a: u8, b: u8, c: u8)
    ensures
        ({
            let n = a * 65536 + b * 256 + c;
            &&& 0 <= n < 16777216
            &&& (n / 65536) as u8 == a
            &&& (n / 256 % 256) as u8 == b
            &&& (n % 256) as u8 == c
            &&& c == 0 ==> n % 64 == 0
            &&& b == 0 && c == 0 ==> n % 4096 == 0
        }),
{
}

proof fn lemma_last_one(a: u8)
    ensures
        base64_decoded(base64(seq![a])) == Some(seq![a]),
{
    let n = a * 65536;
    lemma_octets(a, 0, 0);
    lemma_quad(n);
    assert(base64(seq![a]) =~= seq![quad(n)[0], quad(n)[1], PAD, PAD]);
}

proof fn lemma_last_two(a: u8, b: u8)
    ensures
        base64_decoded(base64(seq![a, b])) == Some(seq![a, b]),
{
    let n = a * 65536 + b * 256;
    lemma_octets(a, b, 0);
    lemma_quad(n);
    assert(base64(seq![a, b]) =~= seq![quad(n)[0], quad(n)[1], quad(n)[2], PAD]);
}

proof fn lemma_first_three(a: u8, b: u8, c: u8, more: Seq<u8>, data: Seq<u8>)
    requires
        base64_decoded(more) == Some(data),
    ensures
        base64_decoded(quad(a * 65536 + b * 256 + c) + more) == Some(seq![a, b, c] + data),
{
    let n = a * 65536 + b * 256 + c;
    lemma_octets(a, b, c);
    lemma_quad(n);
    let q = quad(n);
    let text = q + more;
    assert(text.skip(4) =~= more);
    assert(text[0] == q[0] && text[1] == q[1] && text[2] == q[2] && text[3] == q[3]);
    assert(q[3] != PAD);
}

/// Text stands for the octets that it was made of.
pub proof fn law_base64_round_trip(data: Seq<u8>)
    ensures
        base64_decoded(base64(data)) == Some(data),
    decreases data.len(),
{
    if data.len() == 0 {
        assert(data =~= Seq::empty());
    } else if data.len() == 1 {
        assert(data =~= seq![data[0]]);
        lemma_last_one(data[0]);
    } else if data.len() == 2 {
        assert(data =~= seq![data[0], data[1]]);
        lemma_last_two(data[0], data[1]);
    } else {
        law_base64_round_trip(data.skip(3));
        lemma_first_three(data[0], data[1], data[2], base64(data.skip(3)), data.skip(3));
        assert(data =~= seq![data[0], data[1], data[2]] + data.skip(3));
    }
}

/// Whether text comes in fours, holds no line break, and no four begins with the sign
/// that fills up.
pub open spec fn well_shaped(text: Seq<u8>) -> bool {
    &&& text.len() % 4 == 0
    &&& forall|i: int| 0 <= i < text.len() ==> 43 <= #[trigger] text[i] < 128
    &&& forall|i: int| 0 <= i < text.len() && i % 4 == 0 ==> #[trigger] text[i] != PAD
}

proof fn lemma_shape_step(q: Seq<u8>, more: Seq<u8>)
    requires
        q.len() == 4,
        well_shaped(q),
        well_shaped(more),
    ensures
        well_shaped(q + more),
{
    let text = q + more;
    assert forall|i: int| 0 <= i < text.len() implies 43 <= #[trigger] text[i] < 128 && (i % 4 == 0
        ==> text[i] != PAD) by {
        if i >= 4 {
            assert(text[i] == more[i - 4]);
        } else {
            assert(text[i] == q[i]);
        }
    }
}

/// The text for octets comes in fours, holds no line break, and no four begins with the
/// sign that fills up.
pub proof fn lemma_base64_shape(data: Seq<u8>)
    ensures
        well_shaped(base64(data)),
    decreases data.len(),
{
    if data.len() == 1 {
        lemma_octets(data[0], 0, 0);
        lemma_quad(data[0] * 65536);
        let q = quad(data[0] * 65536);
        assert(base64(data) =~= seq![q[0], q[1], PAD, PAD]);
    } else if data.len() == 2 {
        lemma_octets(data[0], data[1], 0);
        lemma_quad(data[0] * 65536 + data[1] * 256);
        let q = quad(data[0] * 65536 + data[1] * 256);
        assert(base64(data) =~= seq![q[0], q[1], q[2], PAD]);
    } else if data.len() >= 3 {
        lemma_base64_shape(data.skip(3));
        lemma_octets(data[0], data[1], data[2]);
        lemma_quad(data[0] * 65536 + data[1] * 256 + data[2]);
        let q = quad(data[0] * 65536 + data[1] * 256 + data[2]);
        assert(well_shaped(q));
        lemma_shape_step(q, base64(data.skip(3)));
    }
}

fn sign(v: u32) -> (c: u8)
    requires
        v < 64,
    ensures
        c == spec_sign(v as int),
{
    proof {
        reveal(spec_sign);
    }
    if v < 26 {
        (65 + v) as u8
    } else if v < 52 {
        (97 + v - 26) as u8
    } else if v < 62 {
        (48 + v - 52) as u8
    } else if v == 62 {
        43
    } else {
        47
    }
}

fn value(c: u8) -> (v: Option<u32>)
    ensures
        match sign_value(c) {
            Some(x) => v matches Some(y) && y == x && 0 <= x < 64,
            None => v is None,
        },
{
    proof {
        reveal(sign_value);
    }
    if 65 <= c && c <= 90 {
        Some(c as u32 - 65)
    } else if 97 <= c && c <= 122 {
        Some(c as u32 - 97 + 26)
    } else if 48 <= c && c <= 57 {
        Some(c as u32 - 48 + 52)
    } else if c == 43 {
        Some(62)
    } else if c == 47 {
        Some(63)
    } else {
        None
    }
}

/// Appends the text for octets.
pub fn push_base64(out: &mut Vec<u8>, data: &[u8])
    ensures
        final(out)@ == old(out)@ + base64(data@),
{
    let ghost before = out@;
    let mut i: usize = 0;
    assert(data@.skip(0) =~= data@);
    while data.len() - i >= 3
        invariant
            i <= data@.len(),
            out@ + base64(data@.skip(i as int)) == before + base64(data@),
        decreases data@.len() - i,
    {
        let n: u32 = data[i] as u32 * 65536 + data[i + 1] as u32 * 256 + data[i + 2] as u32;
        let ghost mid = out@;
        out.push(sign(n / 262144));
        out.push(sign(n / 4096 % 64));
        out.push(sign(n / 64 % 64));
        out.push(sign(n % 64));
        proof {
            let rest = data@.skip(i as int);
            assert(rest.skip(3) =~= data@.skip(i + 3));
            assert(out@ =~= mid + quad(n as int));
            assert(mid + (quad(n as int) + base64(rest.skip(3))) =~= out@ + base64(rest.skip(3)));
        }
        i = i + 3;
    }
    let ghost rest = data@.skip(i as int);
    let ghost mid = out@;
    if data.len() - i == 1 {
        let n: u32 = data[i] as u32 * 65536;
        out.push(sign(n / 262144));
        out.push(sign(n / 4096 % 64));
        out.push(PAD);
        out.push(PAD);
        assert(rest.len() == 1 && rest[0] == data@[i as int]);
        assert(out@ =~= mid + base64(rest));
    } else if data.len() - i == 2 {
        let n: u32 = data[i] as u32 * 65536 + data[i + 1] as u32 * 256;
        out.push(sign(n / 262144));
        out.push(sign(n / 4096 % 64));
        out.push(sign(n / 64 % 64));
        out.push(PAD);
        assert(rest.len() == 2 && rest[0] == data@[i as int] && rest[1] == data@[i + 1]);
        assert(out@ =~= mid + base64(rest));
    } else {
        assert(out@ =~= mid + base64(rest));
    }
}

fn number(a: u8, b: u8, c: u8, d: u8) -> (n: Option<u32>)
    ensures
        match quad_value(a, b, c, d) {
            Some(x) => n matches Some(y) && y == x && 0 <= x < 16777216,
            None => n is None,
        },
{
    match (value(a), value(b), value(c), value(d)) {
        (Some(x), Some(y), Some(z), Some(w)) => Some(x * 262144 + y * 4096 + z * 64 + w),
        _ => None,
    }
}

/// Reads the octets that text stands for.
pub fn decode_base64(text: &[u8]) -> (r: Option<Vec<u8>>)
    ensures
        match base64_decoded(text@) {
            Some(data) => r matches Some(x) && x@ == data,
            None => r is None,
        },
{
    let mut out: Vec<u8> = Vec::new();
    let mut i: usize = 0;
    assert(text@.skip(0) =~= text@);
    while i < text.len()
        invariant
            i <= text@.len(),
            match base64_decoded(text@.skip(i as int)) {
                Some(more) => base64_decoded(text@) == Some(out@ + more),
                None => base64_decoded(text@) is None,
            },
        decreases text@.len() - i,
    {
        let ghost cur = text@.skip(i as int);
        let ghost before = out@;
        if text.len() - i < 4 {
            return None;
        }
        let a = text[i];
        let b = text[i + 1];
        let c = text[i + 2];
        let d = text[i + 3];
        assert(cur[0] == a && cur[1] == b && cur[2] == c && cur[3] == d);
        if text.len() - i == 4 && d == PAD && c == PAD {
            match number(a, b, 65, 65) {
                Some(n) => {
                    out.push((n / 65536) as u8);
                    assert(out@ =~= before + seq![(n / 65536) as u8]);
                    return Some(out);
                },
                None => {
                    return None;
                },
            }
        }
        if text.len() - i == 4 && d == PAD {
            match number(a, b, c, 65) {
                Some(n) => {
                    out.push((n / 65536) as u8);
                    out.push((n / 256 % 256) as u8);
                    assert(out@ =~= before + seq![(n / 65536) as u8, (n / 256 % 256) as u8]);
                    return Some(out);
                },
                None => {
                    return None;
                },
            }
        }
        match number(a, b, c, d) {
            Some(n) => {
                out.push((n / 65536) as u8);
                out.push((n / 256 % 256) as u8);
                out.push((n % 256) as u8);
                proof {
                    let three = seq![(n / 65536) as u8, (n / 256 % 256) as u8, (n % 256) as u8];
                    assert(out@ =~= before + three);
                    assert(cur.skip(4) =~= text@.skip(i + 4));
                    if let Some(more) = base64_decoded(text@.skip(i + 4)) {
                        assert(before + (three + more) =~= out@ + more);
                    }
                }
            },
            None => {
                return None;
            },
        }
        i = i + 4;
    }
    assert(text@.skip(i as int) =~= Seq::empty());
    assert(out@ + Seq::<u8>::empty() =~= out@);
    Some(out)
}

} // verus!
