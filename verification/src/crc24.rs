//! The checksum of armored text.
use vstd::prelude::*;

verus! {

/// What the checksum begins with.
pub const INIT: u32 = 0xB7_04CE;

/// The polynomial that the checksum is reduced by.
pub const POLY: u32 = 0x186_4CFB;

/// One bit further.
pub open spec fn bit_step(crc: u32) -> u32 {
    if (crc << 1) & 0x100_0000 != 0 {
        (crc << 1) ^ POLY
    } else {
        crc << 1
    }
}

/// `k` bits further.
pub open spec fn bit_steps(crc: u32, k: nat) -> u32
    decreases k,
{
    if k == 0 {
        crc
    } else {
        bit_step(bit_steps(crc, (k - 1) as nat))
    }
}

/// The remainder after octets, before it is cut to 24 bits.
pub open spec fn remainder(data: Seq<u8>) -> u32
    decreases data.len(),
{
    if data.len() == 0 {
        INIT
    } else {
        bit_steps(remainder(data.drop_last()) ^ ((data.last() as u32) << 16), 8)
    }
}

/// The checksum of octets: 24 bits.
pub open spec fn spec_crc24(data: Seq<u8>) -> u32 {
    remainder(data) & 0xFF_FFFF
}

/// Computes the checksum of octets.
#[verifier::loop_isolation(false)]
pub fn crc24(data: &[u8]) -> (crc: u32)
    ensures
        crc == spec_crc24(data@),
        crc < 0x100_0000,
{
    let mut crc: u32 = INIT;
    for i in 0..data.len()
        invariant
            crc == remainder(data@.take(i as int)),
    {
        assert(data@.take(i + 1).drop_last() =~= data@.take(i as int));
        crc = crc ^ ((data[i] as u32) << 16);
        let ghost start = crc;
        for k in 0..8u8
            invariant
                crc == bit_steps(start, k as nat),
        {
            crc = crc << 1;
            if crc & 0x100_0000 != 0 {
                crc = crc ^ POLY;
            }
        }
    }
    assert(data@.take(data@.len() as int) =~= data@);
    assert(crc & 0xFF_FFFF < 0x100_0000) by (bit_vector);
    crc & 0xFF_FFFF
}

/// A multiple of the polynomial x^24 + x^23 + x^18 + x^17 + x^14 + x^11 + x^10 + x^7 + x^6
/// + x^5 + x^4 + x^3 + x + 1, without carries: the factor is of degree seven at most.
pub open spec fn multiple(q: u32) -> u32 {
    (if q & 1 != 0 { 0x186_4CFBu32 } else { 0 }) ^ (if q & 2 != 0 { 0x186_4CFBu32 << 1 } else { 0 })
        ^ (if q & 4 != 0 { 0x186_4CFBu32 << 2 } else { 0 }) ^ (if q & 8 != 0 { 0x186_4CFBu32 << 3 }
        else { 0 }) ^ (if q & 16 != 0 { 0x186_4CFBu32 << 4 } else { 0 }) ^ (if q & 32 != 0 {
        0x186_4CFBu32 << 5
    } else { 0 }) ^ (if q & 64 != 0 { 0x186_4CFBu32 << 6 } else { 0 }) ^ (if q & 128 != 0 {
        0x186_4CFBu32 << 7
    } else { 0 })
}

proof fn lemma_eight(x: u32) -> (q: u32)
    requires
        x < 0x100_0000,
    ensures
        q < 256,
        bit_steps(x, 8) < 0x100_0000,
        bit_steps(x, 8) == (x << 8) ^ multiple(q),
{
    reveal_with_fuel(bit_steps, 9);
    let x1 = bit_step(x);
    let x2 = bit_step(x1);
    let x3 = bit_step(x2);
    let x4 = bit_step(x3);
    let x5 = bit_step(x4);
    let x6 = bit_step(x5);
    let x7 = bit_step(x6);
    let x8 = bit_step(x7);
    let b1: u32 = (x >> 23) & 1;
    let b2: u32 = (x1 >> 23) & 1;
    let b3: u32 = (x2 >> 23) & 1;
    let b4: u32 = (x3 >> 23) & 1;
    let b5: u32 = (x4 >> 23) & 1;
    let b6: u32 = (x5 >> 23) & 1;
    let b7: u32 = (x6 >> 23) & 1;
    let b8: u32 = (x7 >> 23) & 1;
    lemma_one(x);
    lemma_one(x1);
    lemma_one(x2);
    lemma_one(x3);
    lemma_one(x4);
    lemma_one(x5);
    lemma_one(x6);
    lemma_one(x7);
    let q: u32 = (b1 << 7) | (b2 << 6) | (b3 << 5) | (b4 << 4) | (b5 << 3) | (b6 << 2) | (b7 << 1)
        | b8;
    assert(q < 256 && x8 == (x << 8) ^ multiple(q)) by (bit_vector)
        requires
            x < 0x100_0000,
            b1 <= 1,
            b2 <= 1,
            b3 <= 1,
            b4 <= 1,
            b5 <= 1,
            b6 <= 1,
            b7 <= 1,
            b8 <= 1,
            x1 == (x << 1) ^ (if b1 == 1 { 0x186_4CFBu32 } else { 0 }),
            x2 == (x1 << 1) ^ (if b2 == 1 { 0x186_4CFBu32 } else { 0 }),
            x3 == (x2 << 1) ^ (if b3 == 1 { 0x186_4CFBu32 } else { 0 }),
            x4 == (x3 << 1) ^ (if b4 == 1 { 0x186_4CFBu32 } else { 0 }),
            x5 == (x4 << 1) ^ (if b5 == 1 { 0x186_4CFBu32 } else { 0 }),
            x6 == (x5 << 1) ^ (if b6 == 1 { 0x186_4CFBu32 } else { 0 }),
            x7 == (x6 << 1) ^ (if b7 == 1 { 0x186_4CFBu32 } else { 0 }),
            x8 == (x7 << 1) ^ (if b8 == 1 { 0x186_4CFBu32 } else { 0 }),
            q == (b1 << 7) | (b2 << 6) | (b3 << 5) | (b4 << 4) | (b5 << 3) | (b6 << 2) | (b7 << 1)
                | b8,
    ;
    q
}

proof fn lemma_one(x: u32)
    requires
        x < 0x100_0000,
    ensures
        bit_step(x) < 0x100_0000,
        (x >> 23) & 1 <= 1,
        bit_step(x) == (x << 1) ^ (if (x >> 23) & 1 == 1 { 0x186_4CFBu32 } else { 0 }),
{
    assert((x >> 23) & 1 <= 1) by (bit_vector);
    assert(((x << 1) & 0x100_0000 != 0) == ((x >> 23) & 1 == 1)) by (bit_vector)
        requires
            x < 0x100_0000,
    ;
    assert((x << 1) ^ 0 == x << 1) by (bit_vector);
    assert((x << 1) & 0x100_0000 != 0 ==> (x << 1) ^ 0x186_4CFB < 0x100_0000) by (bit_vector)
        requires
            x < 0x100_0000,
    ;
    assert((x << 1) & 0x100_0000 == 0 ==> (x << 1) < 0x100_0000) by (bit_vector)
        requires
            x < 0x100_0000,
    ;
}

proof fn lemma_remainder_is_short(data: Seq<u8>)
    ensures
        remainder(data) < 0x100_0000,
        spec_crc24(data) == remainder(data),
    decreases data.len(),
{
    if data.len() > 0 {
        lemma_remainder_is_short(data.drop_last());
        let r = remainder(data.drop_last());
        let b = data.last();
        assert(r ^ ((b as u32) << 16) < 0x100_0000) by (bit_vector)
            requires
                r < 0x100_0000,
        ;
        let q = lemma_eight(r ^ ((b as u32) << 16));
    }
    let r = remainder(data);
    assert(r & 0xFF_FFFF == r) by (bit_vector)
        requires
            r < 0x100_0000,
    ;
}

/// The checksum takes in every octet, whatever comes before it: with one more octet it is
/// what is left when a multiple of the polynomial is taken from the checksum before, moved
/// up by eight bits, with the octet on top. There is only one such number of 24 bits.
pub proof fn law_checksum_takes_in_every_octet(data: Seq<u8>, b: u8)
    ensures
        spec_crc24(Seq::empty()) == 0xB7_04CE,
        spec_crc24(data) < 0x100_0000,
        spec_crc24(data.push(b)) < 0x100_0000,
        exists|q: u32|
            q < 256 && spec_crc24(data.push(b)) == ((spec_crc24(data) ^ ((b as u32) << 16)) << 8)
                ^ #[trigger] multiple(q),
        forall|q: u32|
            q < 256 && ((spec_crc24(data) ^ ((b as u32) << 16)) << 8) ^ #[trigger] multiple(q)
                < 0x100_0000 ==> spec_crc24(data.push(b)) == ((spec_crc24(data) ^ ((b as u32)
                << 16)) << 8) ^ multiple(q),
{
    lemma_remainder_is_short(Seq::empty());
    lemma_remainder_is_short(data);
    lemma_remainder_is_short(data.push(b));
    assert(data.push(b).drop_last() =~= data);
    let r = remainder(data);
    assert(r ^ ((b as u32) << 16) < 0x100_0000) by (bit_vector)
        requires
            r < 0x100_0000,
    ;
    let q = lemma_eight(r ^ ((b as u32) << 16));
    let x = (r ^ ((b as u32) << 16)) << 8;
    assert forall|p: u32| p < 256 && x ^ #[trigger] multiple(p) < 0x100_0000 implies spec_crc24(
        data.push(b),
    ) == x ^ multiple(p) by {
        lemma_one_remainder(x, p, q, x ^ multiple(p), spec_crc24(data.push(b)));
    }
}

proof fn lemma_one_remainder(x: u32, p: u32, q: u32, c: u32, d: u32)
    requires
        p < 256,
        q < 256,
        c < 0x100_0000,
        d < 0x100_0000,
        c == x ^ multiple(p),
        d == x ^ multiple(q),
    ensures
        c == d,
{
    assert(c == d) by (bit_vector)
        requires
            p < 256,
            q < 256,
            c < 0x100_0000,
            d < 0x100_0000,
            c == x ^ multiple(p),
            d == x ^ multiple(q),
    ;
}

proof fn lemma_step_is_injective(x: u32, y: u32, k: nat)
    requires
        x < 0x100_0000,
        y < 0x100_0000,
        x != y,
    ensures
        bit_steps(x, k) < 0x100_0000,
        bit_steps(y, k) < 0x100_0000,
        bit_steps(x, k) != bit_steps(y, k),
    decreases k,
{
    if k > 0 {
        lemma_step_is_injective(x, y, (k - 1) as nat);
        let a = bit_steps(x, (k - 1) as nat);
        let b = bit_steps(y, (k - 1) as nat);
        lemma_one(a);
        lemma_one(b);
        assert((a << 1) ^ (if (a >> 23) & 1 == 1 { 0x186_4CFBu32 } else { 0 }) != (b << 1) ^ (if (b
            >> 23) & 1 == 1 { 0x186_4CFBu32 } else { 0 })) by (bit_vector)
            requires
                a < 0x100_0000,
                b < 0x100_0000,
                a != b,
        ;
    }
}

/// Different checksums stay different when the same octet follows, and one checksum
/// becomes two when different octets follow.
pub proof fn law_checksum_tells_octets_apart(s: Seq<u8>, t: Seq<u8>, a: u8, b: u8)
    ensures
        spec_crc24(s) != spec_crc24(t) ==> spec_crc24(s.push(a)) != spec_crc24(t.push(a)),
        a != b ==> spec_crc24(s.push(a)) != spec_crc24(s.push(b)),
{
    lemma_remainder_is_short(s);
    lemma_remainder_is_short(t);
    lemma_remainder_is_short(s.push(a));
    lemma_remainder_is_short(s.push(b));
    lemma_remainder_is_short(t.push(a));
    assert(s.push(a).drop_last() =~= s);
    assert(s.push(b).drop_last() =~= s);
    assert(t.push(a).drop_last() =~= t);
    let r = remainder(s);
    let u = remainder(t);
    assert((r ^ ((a as u32) << 16)) < 0x100_0000 && (r ^ ((b as u32) << 16)) < 0x100_0000 && (u ^ ((
    a as u32) << 16)) < 0x100_0000) by (bit_vector)
        requires
            r < 0x100_0000,
            u < 0x100_0000,
    ;
    if a != b {
        assert(r ^ ((a as u32) << 16) != r ^ ((b as u32) << 16)) by (bit_vector)
            requires
                a != b,
        ;
        lemma_step_is_injective(r ^ ((a as u32) << 16), r ^ ((b as u32) << 16), 8);
    }
    if r != u {
        assert(r ^ ((a as u32) << 16) != u ^ ((a as u32) << 16)) by (bit_vector)
            requires
                r != u,
        ;
        lemma_step_is_injective(r ^ ((a as u32) << 16), u ^ ((a as u32) << 16), 8);
    }
}

/// An octet that is changed, wherever it stands, changes the checksum.
pub proof fn law_checksum_notices_a_changed_octet(data: Seq<u8>, i: int, b: u8)
    requires
        0 <= i < data.len(),
        data[i] != b,
    ensures
        spec_crc24(data.update(i, b)) != spec_crc24(data),
    decreases data.len(),
{
    let front = data.drop_last();
    let other = data.update(i, b);
    assert(data =~= front.push(data.last()));
    if i == data.len() - 1 {
        assert(other =~= front.push(b));
        law_checksum_tells_octets_apart(front, front, data.last(), b);
    } else {
        law_checksum_notices_a_changed_octet(front, i, b);
        assert(other =~= front.update(i, b).push(data.last()));
        law_checksum_tells_octets_apart(front.update(i, b), front, data.last(), b);
    }
}

} // verus!
