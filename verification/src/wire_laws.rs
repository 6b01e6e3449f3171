//! What packets are on the wire, told octet by octet.
use crate::be::{be_bytes, be_value, lemma_be_bytes_of_value, lemma_be_value_of_bytes};
use crate::be::{lemma_pow256_values, pow256};
use crate::errors::Error;
use crate::frame::{
    counted_body, frame_at, header_bytes, new_body, split_body, FrameModel,
};
use crate::packet::{
    packet_at, packet_of, packet_written, CompressedData, LiteralData, OnePassSignature, Packet,
    PacketModel, PublicKeyEncryptedSessionKey, Signature, SymEncryptedData,
    SymEncryptedProtectedData, SymKeyEncryptedSessionKey,
};
use crate::types::{CompressionAlgorithm, DataMode, Tag, Version};
use vstd::arithmetic::power2::pow2;
use vstd::prelude::*;

verus! {

/// The numbers that packets are known by.
pub proof fn law_packet_numbers(p: PacketModel)
    ensures
        p.tag().code() == match p {
            PacketModel::PublicKeyEncryptedSessionKey(_) => 1u8,
            PacketModel::Signature(_) => 2u8,
            PacketModel::SymKeyEncryptedSessionKey(_) => 3u8,
            PacketModel::OnePassSignature(_) => 4u8,
            PacketModel::CompressedData(_) => 8u8,
            PacketModel::SymEncryptedData(_) => 9u8,
            PacketModel::Marker(_) => 10u8,
            PacketModel::LiteralData(_) => 11u8,
            PacketModel::SymEncryptedProtectedData(_) => 18u8,
        },
        p.version() == match p {
            PacketModel::PublicKeyEncryptedSessionKey(k) => k.packet_version,
            PacketModel::Signature(k) => k.packet_version,
            PacketModel::SymKeyEncryptedSessionKey(k) => k.packet_version,
            PacketModel::OnePassSignature(k) => k.packet_version,
            PacketModel::CompressedData(k) => k.packet_version,
            PacketModel::SymEncryptedData(k) => k.packet_version,
            PacketModel::Marker(k) => k.packet_version,
            PacketModel::LiteralData(k) => k.packet_version,
            PacketModel::SymEncryptedProtectedData(k) => k.packet_version,
        },
{
}

/// The numbers of the compression algorithms, and back.
pub proof fn law_algorithm_numbers(a: CompressionAlgorithm, code: u8)
    ensures
        a.code() == match a {
            CompressionAlgorithm::Uncompressed => 0u8,
            CompressionAlgorithm::ZIP => 1u8,
            CompressionAlgorithm::ZLIB => 2u8,
            CompressionAlgorithm::BZip2 => 3u8,
            CompressionAlgorithm::Private10 => 110u8,
        },
        CompressionAlgorithm::spec_from_code(a.code()) == Some(a),
        CompressionAlgorithm::spec_from_code(code) is Some <==> code == 0 || code == 1 || code == 2
            || code == 3 || code == 110,
        CompressionAlgorithm::spec_from_code(code) matches Some(x) ==> x.code() == code,
{
    if code == 0 {
        assert(CompressionAlgorithm::Uncompressed.code() == code);
    } else if code == 1 {
        assert(CompressionAlgorithm::ZIP.code() == code);
    } else if code == 2 {
        assert(CompressionAlgorithm::ZLIB.code() == code);
    } else if code == 3 {
        assert(CompressionAlgorithm::BZip2.code() == code);
    } else if code == 110 {
        assert(CompressionAlgorithm::Private10.code() == code);
    }
}

/// The letters of the modes of literal data, and back.
pub proof fn law_mode_letters(m: DataMode, code: u8)
    ensures
        m.code() == match m {
            DataMode::Binary => 98u8,
            DataMode::Text => 116u8,
            DataMode::Utf8 => 117u8,
            DataMode::Local => 108u8,
            DataMode::Mime => 109u8,
        },
        DataMode::spec_from_code(m.code()) == Some(m),
        DataMode::spec_from_code(code) is Some <==> code == 98 || code == 116 || code == 117 || code
            == 108 || code == 109,
        DataMode::spec_from_code(code) matches Some(x) ==> x.code() == code,
{
    if code == 98 {
        assert(DataMode::Binary.code() == code);
    } else if code == 116 {
        assert(DataMode::Text.code() == code);
    } else if code == 117 {
        assert(DataMode::Utf8.code() == code);
    } else if code == 108 {
        assert(DataMode::Local.code() == code);
    } else if code == 109 {
        assert(DataMode::Mime.code() == code);
    }
}

/// Octets as a number, the most significant one first.
pub proof fn law_numbers_are_big_endian(s: Seq<u8>)
    ensures
        s.len() == 1 ==> be_value(s) == s[0],
        s.len() == 2 ==> be_value(s) == s[0] * 0x100 + s[1],
        s.len() == 4 ==> be_value(s) == s[0] * 0x100_0000 + s[1] * 0x1_0000 + s[2] * 0x100 + s[3],
        s.len() == 8 ==> be_value(s) == s[0] * 0x100_0000_0000_0000 + s[1] * 0x1_0000_0000_0000
            + s[2] * 0x100_0000_0000 + s[3] * 0x1_0000_0000 + s[4] * 0x100_0000 + s[5] * 0x1_0000
            + s[6] * 0x100 + s[7],
{
    reveal_with_fuel(be_value, 9);
}

/// The octets of a number are those that stand for it.
pub proof fn law_octets_of_a_number(n: nat, k: nat)
    requires
        n < pow256(k),
    ensures
        be_bytes(n, k).len() == k,
        be_value(be_bytes(n, k)) == n,
{
    lemma_be_value_of_bytes(n, k);
}

/// The first octet of a header tells the format and the number of the packet, and the
/// others its length, in the shortest of the ways that there are.
pub proof fn law_header_tells_number_and_length(version: Version, tag: Tag, len: nat)
    requires
        len <= 0xFFFF_FFFF,
        version is Old ==> tag.code() < 16,
    ensures
        ({
            let h = header_bytes(version, tag, len);
            match version {
                Version::New => h[0] == 0xC0 + tag.code() && if len <= 191 {
                    h.len() == 2 && h[1] == len
                } else if len <= 8383 {
                    h.len() == 3 && 192 <= h[1] <= 223 && (h[1] - 192) * 256 + h[2] + 192 == len
                } else {
                    h.len() == 6 && h[1] == 255 && h[2] * 0x100_0000 + h[3] * 0x1_0000 + h[4]
                        * 0x100 + h[5] == len
                },
                Version::Old => if len <= 0xFF {
                    h.len() == 2 && h[0] == 0x80 + 4 * tag.code() && h[1] == len
                } else if len <= 0xFFFF {
                    h.len() == 3 && h[0] == 0x81 + 4 * tag.code() && h[1] * 0x100 + h[2] == len
                } else {
                    h.len() == 5 && h[0] == 0x82 + 4 * tag.code() && h[1] * 0x100_0000 + h[2]
                        * 0x1_0000 + h[3] * 0x100 + h[4] == len
                },
            }
        }),
{
    lemma_pow256_values();
    if len < pow256(1) {
        lemma_be_value_of_bytes(len, 1);
        law_numbers_are_big_endian(be_bytes(len, 1));
    }
    if len < pow256(2) {
        lemma_be_value_of_bytes(len, 2);
        law_numbers_are_big_endian(be_bytes(len, 2));
    }
    lemma_be_value_of_bytes(len, 4);
    law_numbers_are_big_endian(be_bytes(len, 4));
}

/// Why a packet cannot be written: only a literal packet with a name of more than 255
/// octets, a packet of the old format with a number of more than four bits, and a body of
/// more octets than 32 bits can count.
pub proof fn law_packet_error_by_fields(p: PacketModel)
    ensures
        p.error() == (if p matches PacketModel::LiteralData(l) && l.file_name.len() > 255 {
            Some(Error::FileNameTooLong)
        } else if p.version() is Old && p.tag().code() > 15 {
            Some(Error::TagTooLarge)
        } else if p.body().len() > 0xFFFF_FFFF {
            Some(Error::PacketTooLong)
        } else {
            None
        }),
        p.bytes() == header_bytes(p.version(), p.tag(), p.body().len()) + p.body(),
{
}

/// Writing a packet appends its octets, or fails as the packet demands and appends nothing.
pub proof fn law_written_packet_is_appended(
    p: PacketModel,
    before: Seq<u8>,
    after: Seq<u8>,
    r: Result<(), Error>,
)
    requires
        packet_written(p, before, after, r),
    ensures
        r is Ok <==> p.error() is None,
        r is Ok ==> after == before + p.bytes(),
        r matches Err(e) ==> p.error() == Some(e) && after == before,
{
}

/// The octets of the body of each packet, one after the other.
pub proof fn law_body_by_fields(p: PacketModel)
    requires
        p matches PacketModel::LiteralData(l) ==> l.file_name.len() <= 255,
    ensures
        ({
            let b = p.body();
            match p {
                PacketModel::PublicKeyEncryptedSessionKey(k) => {
                    &&& b.len() == 10 + k.mpis.len()
                    &&& b[0] == 3
                    &&& b[1] * 0x100_0000_0000_0000 + b[2] * 0x1_0000_0000_0000 + b[3]
                        * 0x100_0000_0000 + b[4] * 0x1_0000_0000 + b[5] * 0x100_0000 + b[6]
                        * 0x1_0000 + b[7] * 0x100 + b[8] == k.id.0
                    &&& b[9] == k.algorithm
                    &&& b.skip(10) == k.mpis
                },
                PacketModel::LiteralData(l) => {
                    let n = l.file_name.len() as int;
                    &&& b.len() == 6 + n + l.data.len()
                    &&& b[0] == l.mode.code()
                    &&& b[1] == n
                    &&& b.subrange(2, 2 + n) == l.file_name
                    &&& b[2 + n] * 0x100_0000 + b[3 + n] * 0x1_0000 + b[4 + n] * 0x100 + b[5 + n]
                        == l.created
                    &&& b.skip(6 + n) == l.data
                },
                PacketModel::CompressedData(c) => b.len() == 1 + c.data.len() && b[0]
                    == c.algorithm.code() && b.skip(1) == c.data,
                PacketModel::SymEncryptedProtectedData(d) => b.len() == 1 + d.data.len() && b[0]
                    == 1 && b.skip(1) == d.data,
                PacketModel::Signature(d) => b == d.data,
                PacketModel::SymKeyEncryptedSessionKey(d) => b == d.data,
                PacketModel::OnePassSignature(d) => b == d.data,
                PacketModel::SymEncryptedData(d) => b == d.data,
                PacketModel::Marker(d) => b == d.data,
            }
        }),
{
    lemma_pow256_values();
    let b = p.body();
    match p {
        PacketModel::PublicKeyEncryptedSessionKey(k) => {
            let id = be_bytes(k.id.0 as nat, 8);
            lemma_be_value_of_bytes(k.id.0 as nat, 8);
            law_numbers_are_big_endian(id);
            assert(b[1] == id[0] && b[2] == id[1] && b[3] == id[2] && b[4] == id[3]);
            assert(b[5] == id[4] && b[6] == id[5] && b[7] == id[6] && b[8] == id[7]);
            assert(b.skip(10) =~= k.mpis);
        },
        PacketModel::LiteralData(l) => {
            let n = l.file_name.len() as int;
            let c = be_bytes(l.created as nat, 4);
            lemma_be_value_of_bytes(l.created as nat, 4);
            law_numbers_are_big_endian(c);
            assert(b[2 + n] == c[0] && b[3 + n] == c[1] && b[4 + n] == c[2] && b[5 + n] == c[3]);
            assert(b.subrange(2, 2 + n) =~= l.file_name);
            assert(b.skip(6 + n) =~= l.data);
        },
        PacketModel::CompressedData(c) => {
            assert(b.skip(1) =~= c.data);
        },
        PacketModel::SymEncryptedProtectedData(d) => {
            assert(b.skip(1) =~= d.data);
        },
        _ => {},
    }
}

/// What is read is what stands there: a packet that is read from a body has that body,
/// that number and that format.
pub proof fn law_read_packet_has_that_body(version: Version, code: u8, body: Seq<u8>)
    ensures
        packet_of(version, code, body) matches Ok(p) ==> p.body() == body && p.tag().code() == code
            && p.version() == version,
{
    lemma_pow256_values();
    if let Ok(p) = packet_of(version, code, body) {
        match p {
            PacketModel::PublicKeyEncryptedSessionKey(k) => {
                let id = body.subrange(1, 9);
                lemma_be_bytes_of_value(id);
                assert(k.id.0 == be_value(id));
                assert(p.body() =~= body);
            },
            PacketModel::LiteralData(l) => {
                let n = body[1] as int;
                let created = body.subrange(2 + n, 6 + n);
                lemma_be_bytes_of_value(created);
                assert(l.created == be_value(created));
                law_mode_letters(l.mode, body[0]);
                assert(p.body() =~= body);
            },
            PacketModel::CompressedData(c) => {
                law_algorithm_numbers(c.algorithm, body[0]);
                assert(p.body() =~= body);
            },
            PacketModel::SymEncryptedProtectedData(d) => {
                assert(p.body() =~= body);
            },
            _ => {},
        }
    }
}

/// Which bodies are read: signatures, announcements, password packets, plain encrypted data
/// and markers with any body; the others with bodies that hold what the packet must hold.
/// Packets with other numbers are not expected in a message.
pub proof fn law_which_packets_are_read(version: Version, code: u8, body: Seq<u8>)
    ensures
        ({
            let known = code == 1 || code == 2 || code == 3 || code == 4 || code == 8 || code == 9
                || code == 10 || code == 11 || code == 18;
            let fits = {
                ||| code == 2 || code == 3 || code == 4 || code == 9 || code == 10
                ||| code == 1 && body.len() >= 10 && body[0] == 3
                ||| code == 8 && body.len() >= 1 && (body[0] == 0 || body[0] == 1 || body[0] == 2
                    || body[0] == 3 || body[0] == 110)
                ||| code == 11 && body.len() >= 2 && (body[0] == 98 || body[0] == 116 || body[0]
                    == 117 || body[0] == 108 || body[0] == 109) && body.len() >= 6 + body[1]
                ||| code == 18 && body.len() >= 1 && body[0] == 1
            };
            match packet_of(version, code, body) {
                Ok(_) => known && fits,
                Err(e) => if known {
                    !fits && e == Error::InvalidBody
                } else {
                    e == Error::UnexpectedPacket(code)
                },
            }
        }),
{
    if body.len() > 0 {
        law_algorithm_numbers(CompressionAlgorithm::ZIP, body[0]);
        law_mode_letters(DataMode::Utf8, body[0]);
    }
}

/// A packet is read from what lies in its frame, and what comes after the frame is left.
pub proof fn law_packet_is_read_from_its_frame(s: Seq<u8>)
    ensures
        match frame_at(s) {
            Ok(f) => match packet_of(f.version, f.code, f.body) {
                Ok(p) => packet_at(s) == Ok::<(PacketModel, Seq<u8>), Error>((p, f.rest)),
                Err(e) => packet_at(s) == Err::<(PacketModel, Seq<u8>), Error>(e),
            },
            Err(e) => packet_at(s) == Err::<(PacketModel, Seq<u8>), Error>(e),
        },
{
    reveal(packet_at);
}

proof fn lemma_counted(s: Seq<u8>, k: nat, told: Seq<u8>, body: Seq<u8>, rest: Seq<u8>)
    requires
        told.len() == k,
        be_value(told) == body.len(),
        s == told + body + rest,
    ensures
        counted_body(s, k) == Ok::<(Seq<u8>, Seq<u8>), Error>((body, rest)),
{
    assert(s.take(k as int) =~= told);
    assert(s.skip(k as int).take(body.len() as int) =~= body);
    assert(s.skip(k as int).skip(body.len() as int) =~= rest);
}

/// A packet of the new format is read by the length that its header tells, whichever way it
/// tells it: the ways need not be the shortest.
pub proof fn law_new_frame_is_read(code: u8, told: Seq<u8>, body: Seq<u8>, rest: Seq<u8>)
    requires
        code < 64,
        ({
            ||| told.len() == 1 && told[0] <= 191 && body.len() == told[0]
            ||| told.len() == 2 && 192 <= told[0] <= 223 && body.len() == (told[0] - 192) * 256
                + told[1] + 192
            ||| told.len() == 5 && told[0] == 255 && body.len() == told[1] * 0x100_0000 + told[2]
                * 0x1_0000 + told[3] * 0x100 + told[4]
        }),
    ensures
        frame_at(seq![(0xC0 + code) as u8] + told + body + rest) == Ok::<FrameModel, Error>(
            (FrameModel { version: Version::New, code, body, rest }),
        ),
{
    let s = seq![(0xC0 + code) as u8] + told + body + rest;
    let t = told + body + rest;
    assert(s.skip(1) =~= t);
    assert(t[0] == told[0]);
    assert(Seq::<u8>::empty() + body =~= body);
    if told.len() == 1 {
        assert(t.skip(1).take(body.len() as int) =~= body);
        assert(t.skip(1).skip(body.len() as int) =~= rest);
    } else if told.len() == 2 {
        assert(t[1] == told[1]);
        assert(t.skip(2).take(body.len() as int) =~= body);
        assert(t.skip(2).skip(body.len() as int) =~= rest);
    } else {
        let n = told.skip(1);
        law_numbers_are_big_endian(n);
        assert(t.skip(1) =~= n + body + rest);
        lemma_counted(t.skip(1), 4, n, body, rest);
    }
}

/// A packet of the old format is read by the length that one, two or four octets tell, or
/// up to the end of the input.
pub proof fn law_old_frame_is_read(
    code: u8,
    kind: u8,
    told: Seq<u8>,
    body: Seq<u8>,
    rest: Seq<u8>,
)
    requires
        code < 16,
        ({
            ||| kind == 0 && told.len() == 1 && body.len() == told[0]
            ||| kind == 1 && told.len() == 2 && body.len() == told[0] * 0x100 + told[1]
            ||| kind == 2 && told.len() == 4 && body.len() == told[0] * 0x100_0000 + told[1]
                * 0x1_0000 + told[2] * 0x100 + told[3]
            ||| kind == 3 && told.len() == 0 && rest.len() == 0
        }),
    ensures
        frame_at(seq![(0x80 + 4 * code + kind) as u8] + told + body + rest) == Ok::<
            FrameModel,
            Error,
        >((FrameModel { version: Version::Old, code, body, rest })),
{
    let first = (0x80 + 4 * code + kind) as u8;
    let s = seq![first] + told + body + rest;
    let t = told + body + rest;
    assert(s.skip(1) =~= t);
    assert(first as int % 4 == kind && (first - 0x80) / 4 == code);
    law_numbers_are_big_endian(told);
    if kind < 3 {
        lemma_counted(t, told.len(), told, body, rest);
    } else {
        assert(t =~= body);
        assert(rest =~= Seq::empty());
    }
}

/// What comes before in parts stands before what comes after.
proof fn lemma_parts(done: Seq<u8>, s: Seq<u8>)
    ensures
        new_body(done, s) == match new_body(Seq::empty(), s) {
            Ok((body, rest)) => Ok((done + body, rest)),
            Err(e) => Err(e),
        },
    decreases s.len(),
{
    if s.len() > 0 && 224 <= s[0] < 255 {
        match split_body(s.skip(1), pow2((s[0] - 224) as nat)) {
            Ok((part, rest)) => {
                if rest.len() < s.len() {
                    lemma_parts(done + part, rest);
                    lemma_parts(part, rest);
                    assert(Seq::<u8>::empty() + part =~= part);
                    if let Ok((body, _)) = new_body(Seq::empty(), rest) {
                        assert(done + part + body =~= done + (part + body));
                    }
                }
            },
            Err(_) => {},
        }
    } else if s.len() > 0 {
        if let Ok((body, _)) = new_body(Seq::empty(), s) {
            assert(forall|x: Seq<u8>| Seq::<u8>::empty() + x =~= x);
        }
    }
}

/// A body may come in parts: a part of a power of two, told by one octet, stands before
/// what the rest of the parts give.
pub proof fn law_parts_are_joined(code: u8, power: u8, part: Seq<u8>, s: Seq<u8>)
    requires
        code < 64,
        power <= 30,
        part.len() == pow2(power as nat),
    ensures
        frame_at(seq![(0xC0 + code) as u8, (224 + power) as u8] + part + s) == match frame_at(
            seq![(0xC0 + code) as u8] + s,
        ) {
            Ok(f) => Ok(
                (FrameModel { version: f.version, code: f.code, body: part + f.body, rest: f.rest }),
            ),
            Err(e) => Err(e),
        },
{
    let whole = seq![(0xC0 + code) as u8, (224 + power) as u8] + part + s;
    let t = seq![(224 + power) as u8] + part + s;
    assert(whole.skip(1) =~= t);
    assert((seq![(0xC0 + code) as u8] + s).skip(1) =~= s);
    assert(t.skip(1).take(part.len() as int) =~= part);
    assert(t.skip(1).skip(part.len() as int) =~= s);
    assert(Seq::<u8>::empty() + part =~= part);
    lemma_parts(part, s);
}

/// A packet begins with an octet whose highest bit is set.
pub proof fn law_what_begins_no_packet(s: Seq<u8>)
    ensures
        s.len() == 0 ==> frame_at(s) == Err::<FrameModel, Error>(Error::UnexpectedEof),
        s.len() > 0 && s[0] < 128 ==> frame_at(s) == Err::<FrameModel, Error>(
            Error::InvalidHeader,
        ),
{
}

/// A packet that is cut off, wherever that is, is not read.
pub proof fn law_cut_off_packet_is_not_read(p: PacketModel, n: int)
    requires
        p.error() is None,
        0 <= n < p.bytes().len(),
    ensures
        packet_at(p.bytes().take(n)) == Err::<(PacketModel, Seq<u8>), Error>(Error::UnexpectedEof),
{
    let version = p.version();
    let tag = p.tag();
    let len = p.body().len();
    let s = p.bytes().take(n);
    let h = header_bytes(version, tag, len);
    reveal(packet_at);
    law_header_tells_number_and_length(version, tag, len);
    if n > 0 {
        assert(s[0] == h[0]);
        let t = s.skip(1);
        match version {
            Version::New => {
                if n > 1 {
                    assert(t[0] == h[1]);
                    if len > 8383 {
                        if n >= 6 {
                            let told = t.skip(1).take(4);
                            assert(told =~= h.subrange(2, 6));
                            law_numbers_are_big_endian(told);
                        }
                    } else if len > 191 && n > 2 {
                        assert(t[1] == h[2]);
                    }
                }
            },
            Version::Old => {
                let k = h.len() - 1;
                assert(h[0] as int % 4 == (if k == 1 {
                    0int
                } else if k == 2 {
                    1
                } else {
                    2
                }));
                if n > k {
                    let told = t.take(k);
                    assert(told =~= h.skip(1));
                    law_numbers_are_big_endian(told);
                }
            },
        }
    }
}

/// What a packet holds is all that its fields hold.
pub proof fn law_views_hold_every_field(
    k: PublicKeyEncryptedSessionKey,
    l: LiteralData,
    c: CompressedData,
    s: Signature,
    o: OnePassSignature,
    y: SymKeyEncryptedSessionKey,
    d: SymEncryptedData,
    i: SymEncryptedProtectedData,
)
    ensures
        k@.packet_version == k.packet_version && k@.id == k.id && k@.algorithm == k.algorithm
            && k@.mpis == k.mpis@,
        l@.packet_version == l.packet_version && l@.mode == l.mode && l@.file_name == l.file_name@
            && l@.created == l.created && l@.data == l.data@,
        c@.packet_version == c.packet_version && c@.algorithm == c.algorithm && c@.data == c.data@,
        s@.packet_version == s.packet_version && s@.data == s.data@,
        o@.packet_version == o.packet_version && o@.data == o.data@,
        y@.packet_version == y.packet_version && y@.data == y.data@,
        d@.packet_version == d.packet_version && d@.data == d.data@,
        i@.packet_version == i.packet_version && i@.data == i.data@,
        Packet::PublicKeyEncryptedSessionKey(k)@ == PacketModel::PublicKeyEncryptedSessionKey(k@),
        Packet::LiteralData(l)@ == PacketModel::LiteralData(l@),
        Packet::CompressedData(c)@ == PacketModel::CompressedData(c@),
        Packet::Signature(s)@ == PacketModel::Signature(s@),
        Packet::OnePassSignature(o)@ == PacketModel::OnePassSignature(o@),
        Packet::SymKeyEncryptedSessionKey(y)@ == PacketModel::SymKeyEncryptedSessionKey(y@),
        Packet::SymEncryptedData(d)@ == PacketModel::SymEncryptedData(d@),
        Packet::SymEncryptedProtectedData(i)@ == PacketModel::SymEncryptedProtectedData(i@),
{
}

} // verus!
