//! How a packet lies among others: its header, its length, its body.
use crate::be::{be_bytes, be_value, pow256, push_be, read_be};
use crate::be::{lemma_be_value_of_bytes, lemma_pow256_values};
use crate::errors::Error;
use crate::types::{Tag, Version};
use vstd::arithmetic::power2::{lemma_pow2_unfold, pow2};
use vstd::prelude::*;
use vstd::slice::slice_subrange;

verus! {

/// The octets that tell a body's length in the new format.
pub open spec fn new_length_bytes(len: nat) -> Seq<u8> {
    if len < 192 {
        seq![len as u8]
    } else if len < 8384 {
        seq![((len - 192) / 256 + 192) as u8, ((len - 192) % 256) as u8]
    } else {
        seq![255u8] + be_bytes(len, 4)
    }
}

/// The header of a packet with a body of the given length.
pub open spec fn header_bytes(version: Version, tag: Tag, len: nat) -> Seq<u8> {
    match version {
        Version::Old => if len < 0x100 {
            seq![(0x80 + 4 * tag.code()) as u8] + be_bytes(len, 1)
        } else if len < 0x1_0000 {
            seq![(0x80 + 4 * tag.code() + 1) as u8] + be_bytes(len, 2)
        } else {
            seq![(0x80 + 4 * tag.code() + 2) as u8] + be_bytes(len, 4)
        },
        Version::New => seq![(0xC0 + tag.code()) as u8] + new_length_bytes(len),
    }
}

/// Why no header can tell of such a packet, if none can.
pub open spec fn frame_error(version: Version, tag: Tag, len: nat) -> Option<Error> {
    if version is Old && tag.code() >= 16 {
        Some(Error::TagTooLarge)
    } else if len > u32::MAX {
        Some(Error::PacketTooLong)
    } else {
        None
    }
}

/// Appends a packet: its header, then its body.
pub fn write_frame(out: &mut Vec<u8>, version: Version, tag: Tag, body: &Vec<u8>) -> (r: Result<
    (),
    Error,
>)
    ensures
        match frame_error(version, tag, body@.len()) {
            None => r is Ok && final(out)@ == old(out)@ + header_bytes(version, tag, body@.len())
                + body@,
            Some(e) => r == Err::<(), Error>(e) && final(out)@ == old(out)@,
        },
{
    let len = body.len();
    let code = tag.code();
    match version {
        Version::Old => {
            if code >= 16 {
                return Err(Error::TagTooLarge);
            }
        },
        Version::New => {},
    }
    if len as u64 > u32::MAX as u64 {
        return Err(Error::PacketTooLong);
    }
    let ghost before = out@;
    match version {
        Version::Old => {
            if len < 0x100 {
                out.push(0x80 + 4 * code);
                push_be(out, len as u64, 1);
            } else if len < 0x1_0000 {
                out.push(0x80 + 4 * code + 1);
                push_be(out, len as u64, 2);
            } else {
                out.push(0x80 + 4 * code + 2);
                push_be(out, len as u64, 4);
            }
        },
        Version::New => {
            out.push(0xC0 + code);
            if len < 192 {
                out.push(len as u8);
            } else if len < 8384 {
                out.push(((len - 192) / 256 + 192) as u8);
                out.push(((len - 192) % 256) as u8);
            } else {
                out.push(255);
                push_be(out, len as u64, 4);
            }
        },
    }
    assert(out@ =~= before + header_bytes(version, tag, body@.len()));
    out.extend_from_slice(body.as_slice());
    assert(out@ =~= before + header_bytes(version, tag, body@.len()) + body@);
    Ok(())
}

/// A packet as it was found: which header format, which tag, which body, and what
/// comes after it.
pub struct FrameModel {
    pub version: Version,
    pub code: u8,
    pub body: Seq<u8>,
    pub rest: Seq<u8>,
}

/// A body of a known length at the head of `s`, and what comes after it.
pub open spec fn split_body(s: Seq<u8>, len: nat) -> Result<(Seq<u8>, Seq<u8>), Error> {
    if len <= s.len() {
        Ok((s.take(len as int), s.skip(len as int)))
    } else {
        Err(Error::UnexpectedEof)
    }
}

/// A body whose length `k` octets tell, and what comes after it.
pub open spec fn counted_body(s: Seq<u8>, k: nat) -> Result<(Seq<u8>, Seq<u8>), Error> {
    if k <= s.len() {
        split_body(s.skip(k as int), be_value(s.take(k as int)))
    } else {
        Err(Error::UnexpectedEof)
    }
}

/// A body in the new format at the head of `s`, and what comes after it. `done`
/// holds what the body's parts before `s` gave: a body may come in parts, each
/// with its own length, all but the last a power of two.
pub open spec fn new_body(done: Seq<u8>, s: Seq<u8>) -> Result<(Seq<u8>, Seq<u8>), Error>
    decreases s.len(),
{
    if s.len() == 0 {
        Err(Error::UnexpectedEof)
    } else if 224 <= s[0] < 255 {
        match split_body(s.skip(1), pow2((s[0] - 224) as nat)) {
            Ok((part, rest)) => if rest.len() < s.len() {
                new_body(done + part, rest)
            } else {
                Err(Error::UnexpectedEof)
            },
            Err(e) => Err(e),
        }
    } else {
        let last = if s[0] < 192 {
            split_body(s.skip(1), s[0] as nat)
        } else if s[0] < 224 {
            if s.len() < 2 {
                Err(Error::UnexpectedEof)
            } else {
                split_body(s.skip(2), ((s[0] - 192) * 256 + s[1] + 192) as nat)
            }
        } else {
            counted_body(s.skip(1), 4)
        };
        match last {
            Ok((part, rest)) => Ok((done + part, rest)),
            Err(e) => Err(e),
        }
    }
}

/// A body in the old format, whose header says how its length is told: by one, two
/// or four octets, or by the end of the input.
pub open spec fn old_body(kind: int, s: Seq<u8>) -> Result<(Seq<u8>, Seq<u8>), Error> {
    if kind == 0 {
        counted_body(s, 1)
    } else if kind == 1 {
        counted_body(s, 2)
    } else if kind == 2 {
        counted_body(s, 4)
    } else {
        Ok((s, Seq::empty()))
    }
}

/// The packet at the head of `s`.
pub open spec fn frame_at(s: Seq<u8>) -> Result<FrameModel, Error> {
    if s.len() == 0 {
        Err(Error::UnexpectedEof)
    } else if s[0] < 0x80 {
        Err(Error::InvalidHeader)
    } else if s[0] < 0xC0 {
        match old_body(s[0] as int % 4, s.skip(1)) {
            Ok((body, rest)) => Ok(
                FrameModel { version: Version::Old, code: ((s[0] - 0x80) / 4) as u8, body, rest },
            ),
            Err(e) => Err(e),
        }
    } else {
        match new_body(Seq::empty(), s.skip(1)) {
            Ok((body, rest)) => Ok(
                FrameModel { version: Version::New, code: (s[0] - 0xC0) as u8, body, rest },
            ),
            Err(e) => Err(e),
        }
    }
}

fn read_split<'a>(s: &'a [u8], len: usize) -> (r: Result<(&'a [u8], &'a [u8]), Error>)
    ensures
        match split_body(s@, len as nat) {
            Ok((body, rest)) => r matches Ok((b, t)) && b@ == body && t@ == rest,
            Err(e) => r == Err::<(&'a [u8], &'a [u8]), Error>(e),
        },
{
    if len <= s.len() {
        let body = slice_subrange(s, 0, len);
        let rest = slice_subrange(s, len, s.len());
        assert(body@ =~= s@.take(len as int));
        assert(rest@ =~= s@.skip(len as int));
        Ok((body, rest))
    } else {
        Err(Error::UnexpectedEof)
    }
}

fn read_counted<'a>(s: &'a [u8], k: usize) -> (r: Result<(&'a [u8], &'a [u8]), Error>)
    requires
        k <= 4,
    ensures
        match counted_body(s@, k as nat) {
            Ok((body, rest)) => r matches Ok((b, t)) && b@ == body && t@ == rest,
            Err(e) => r == Err::<(&'a [u8], &'a [u8]), Error>(e),
        },
{
    if k <= s.len() {
        let head = slice_subrange(s, 0, k);
        let tail = slice_subrange(s, k, s.len());
        assert(head@ =~= s@.take(k as int));
        assert(tail@ =~= s@.skip(k as int));
        let len = read_be(head);
        if len > tail.len() as u64 {
            return Err(Error::UnexpectedEof);
        }
        read_split(tail, len as usize)
    } else {
        Err(Error::UnexpectedEof)
    }
}

fn part_length(octet: u8) -> (len: usize)
    requires
        224 <= octet < 255,
    ensures
        len == pow2((octet - 224) as nat),
{
    let mut len: u32 = 1;
    let mut i: u8 = 224;
    assert(pow2(0) == 1) by {
        vstd::arithmetic::power2::lemma2_to64();
    }
    while i < octet
        invariant
            224 <= i <= octet < 255,
            len == pow2((i - 224) as nat),
        decreases octet - i,
    {
        proof {
            lemma_pow2_unfold((i + 1 - 224) as nat);
            vstd::arithmetic::power2::lemma2_to64();
            if i < 253 {
                vstd::arithmetic::power2::lemma_pow2_strictly_increases((i - 224) as nat, 29);
            }
        }
        len = len * 2;
        i = i + 1;
    }
    len as usize
}

fn read_new_body<'a>(s: &'a [u8]) -> (r: Result<(Vec<u8>, &'a [u8]), Error>)
    ensures
        match new_body(Seq::empty(), s@) {
            Ok((body, rest)) => r matches Ok((b, t)) && b@ == body && t@ == rest,
            Err(e) => r == Err::<(Vec<u8>, &'a [u8]), Error>(e),
        },
{
    let mut done: Vec<u8> = Vec::new();
    let mut cur = s;
    while cur.len() > 0 && 224 <= cur[0] && cur[0] < 255
        invariant
            new_body(done@, cur@) == new_body(Seq::empty(), s@),
        decreases cur@.len(),
    {
        let len = part_length(cur[0]);
        let tail = slice_subrange(cur, 1, cur.len());
        assert(tail@ =~= cur@.skip(1));
        match read_split(tail, len) {
            Ok((part, rest)) => {
                let ghost before = done@;
                done.extend_from_slice(part);
                assert(done@ =~= before + part@);
                cur = rest;
            },
            Err(e) => {
                return Err(e);
            },
        }
    }
    if cur.len() == 0 {
        return Err(Error::UnexpectedEof);
    }
    let tail = slice_subrange(cur, 1, cur.len());
    assert(tail@ =~= cur@.skip(1));
    let last = if cur[0] < 192 {
        read_split(tail, cur[0] as usize)
    } else if cur[0] < 224 {
        if cur.len() < 2 {
            Err(Error::UnexpectedEof)
        } else {
            let tail2 = slice_subrange(cur, 2, cur.len());
            assert(tail2@ =~= cur@.skip(2));
            read_split(tail2, (cur[0] as usize - 192) * 256 + cur[1] as usize + 192)
        }
    } else {
        read_counted(tail, 4)
    };
    match last {
        Ok((part, rest)) => {
            let ghost before = done@;
            done.extend_from_slice(part);
            assert(done@ =~= before + part@);
            Ok((done, rest))
        },
        Err(e) => Err(e),
    }
}

/// A packet as it was found: header format, tag number, body, and what comes after.
pub struct Frame<'a> {
    pub version: Version,
    pub code: u8,
    pub body: Vec<u8>,
    pub rest: &'a [u8],
}

impl<'a> View for Frame<'a> {
    type V = FrameModel;

    open spec fn view(&self) -> FrameModel {
        FrameModel {
            version: self.version,
            code: self.code,
            body: self.body@,
            rest: self.rest@,
        }
    }
}

/// Reads the packet at the head of `s`.
pub fn read_frame<'a>(s: &'a [u8]) -> (r: Result<Frame<'a>, Error>)
    ensures
        match frame_at(s@) {
            Ok(f) => r matches Ok(x) && x@ == f,
            Err(e) => r == Err::<Frame<'a>, Error>(e),
        },
{
    if s.len() == 0 {
        return Err(Error::UnexpectedEof);
    }
    let first = s[0];
    if first < 0x80 {
        return Err(Error::InvalidHeader);
    }
    let tail = slice_subrange(s, 1, s.len());
    assert(tail@ =~= s@.skip(1));
    if first < 0xC0 {
        let kind = first % 4;
        let found = if kind == 0 {
            read_counted(tail, 1)
        } else if kind == 1 {
            read_counted(tail, 2)
        } else if kind == 2 {
            read_counted(tail, 4)
        } else {
            let none = slice_subrange(tail, tail.len(), tail.len());
            assert(none@ =~= Seq::<u8>::empty());
            Ok((tail, none))
        };
        match found {
            Ok((part, rest)) => {
                let body = vstd::slice::slice_to_vec(part);
                Ok(Frame { version: Version::Old, code: (first - 0x80) / 4, body, rest })
            },
            Err(e) => Err(e),
        }
    } else {
        match read_new_body(tail) {
            Ok((body, rest)) => Ok(
                Frame { version: Version::New, code: first - 0xC0, body, rest },
            ),
            Err(e) => Err(e),
        }
    }
}

proof fn lemma_counted_round_trip(k: nat, body: Seq<u8>, rest: Seq<u8>)
    requires
        k == 1 || k == 2 || k == 4,
        body.len() < pow256(k),
    ensures
        counted_body(be_bytes(body.len(), k) + body + rest, k) == Ok::<(Seq<u8>, Seq<u8>), Error>(
            (body, rest),
        ),
{
    let len = body.len();
    lemma_be_value_of_bytes(len, k);
    let t = be_bytes(len, k) + body + rest;
    assert(t.take(k as int) =~= be_bytes(len, k));
    assert(t.skip(k as int).take(len as int) =~= body);
    assert(t.skip(k as int).skip(len as int) =~= rest);
}

proof fn lemma_new_body_round_trip(body: Seq<u8>, rest: Seq<u8>)
    requires
        body.len() <= u32::MAX,
    ensures
        new_body(Seq::empty(), new_length_bytes(body.len()) + body + rest) == Ok::<
            (Seq<u8>, Seq<u8>),
            Error,
        >((body, rest)),
{
    let len = body.len();
    let t = new_length_bytes(len) + body + rest;
    lemma_pow256_values();
    if len < 192 {
        assert(t[0] == len);
        assert(t.skip(1).take(len as int) =~= body);
        assert(t.skip(1).skip(len as int) =~= rest);
    } else if len < 8384 {
        assert(t[0] == (len - 192) / 256 + 192);
        assert(t[1] == (len - 192) % 256);
        assert(t.skip(2).take(len as int) =~= body);
        assert(t.skip(2).skip(len as int) =~= rest);
    } else {
        assert(t[0] == 255);
        assert(t.skip(1) =~= be_bytes(len, 4) + body + rest);
        lemma_counted_round_trip(4, body, rest);
    }
    assert(Seq::<u8>::empty() + body =~= body);
}

/// How many octets tell a length in the old format, and the number that says so.
spec fn old_kind(len: nat) -> (int, nat) {
    if len < 0x100 {
        (0, 1)
    } else if len < 0x1_0000 {
        (1, 2)
    } else {
        (2, 4)
    }
}

proof fn lemma_old_frame_round_trip(tag: Tag, body: Seq<u8>, rest: Seq<u8>)
    requires
        tag.code() < 16,
        body.len() <= u32::MAX,
    ensures
        frame_at(header_bytes(Version::Old, tag, body.len()) + body + rest) == Ok::<
            FrameModel,
            Error,
        >(FrameModel { version: Version::Old, code: tag.code(), body, rest }),
{
    let len = body.len();
    let (kind, k) = old_kind(len);
    let code = tag.code() as int;
    let s = header_bytes(Version::Old, tag, len) + body + rest;
    let t = be_bytes(len, k) + body + rest;
    let first = (0x80 + 4 * code + kind) as u8;
    assert(header_bytes(Version::Old, tag, len) == seq![first] + be_bytes(len, k));
    assert(s =~= seq![first] + t);
    assert(s[0] == first);
    assert(s.skip(1) =~= t);
    assert(first as int % 4 == kind && (first - 0x80) / 4 == code);
    assert(counted_body(t, k) == Ok::<(Seq<u8>, Seq<u8>), Error>((body, rest))) by {
        lemma_pow256_values();
        lemma_counted_round_trip(k, body, rest);
    }
}

proof fn lemma_new_frame_round_trip(tag: Tag, body: Seq<u8>, rest: Seq<u8>)
    requires
        body.len() <= u32::MAX,
    ensures
        frame_at(header_bytes(Version::New, tag, body.len()) + body + rest) == Ok::<
            FrameModel,
            Error,
        >(FrameModel { version: Version::New, code: tag.code(), body, rest }),
{
    let len = body.len();
    let s = header_bytes(Version::New, tag, len) + body + rest;
    let t = new_length_bytes(len) + body + rest;
    let first = (0xC0 + tag.code()) as u8;
    assert(s =~= seq![first] + t);
    assert(s[0] == first);
    assert(s.skip(1) =~= t);
    lemma_new_body_round_trip(body, rest);
}

/// What was written is found again: a packet's header and body, whatever comes
/// after them.
pub proof fn lemma_frame_round_trip(version: Version, tag: Tag, body: Seq<u8>, rest: Seq<u8>)
    requires
        frame_error(version, tag, body.len()) is None,
    ensures
        frame_at(header_bytes(version, tag, body.len()) + body + rest) == Ok::<FrameModel, Error>(
            FrameModel { version, code: tag.code(), body, rest },
        ),
{
    match version {
        Version::Old => lemma_old_frame_round_trip(tag, body, rest),
        Version::New => lemma_new_frame_round_trip(tag, body, rest),
    }
}

/// Reading a packet leaves less than there was.
pub proof fn lemma_frame_consumes(s: Seq<u8>)
    ensures
        frame_at(s) matches Ok(f) ==> f.rest.len() < s.len(),
{
    if s.len() > 0 {
        lemma_new_body_consumes(Seq::empty(), s.skip(1));
    }
}

proof fn lemma_new_body_consumes(done: Seq<u8>, s: Seq<u8>)
    ensures
        new_body(done, s) matches Ok((_, rest)) ==> rest.len() <= s.len(),
    decreases s.len(),
{
    if s.len() > 0 && 224 <= s[0] < 255 {
        match split_body(s.skip(1), pow2((s[0] - 224) as nat)) {
            Ok((part, rest)) => {
                if rest.len() < s.len() {
                    lemma_new_body_consumes(done + part, rest);
                }
            },
            Err(_) => {},
        }
    }
}

} // verus!
