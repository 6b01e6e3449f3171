//! How messages and packets hang together, in both directions.
use crate::encrypted::{is_edata, is_esk};
use crate::errors::Error;
use crate::grammar::{is_part, leading, lemma_next_consumes, message_at, message_of, next_packet};
use crate::message::{lemma_written_concat, lemma_written_one, write_error, written};
use crate::message::{Message, MessageModel};
use crate::packet::{law_packet_round_trip, lemma_packet_consumes, packet_at, PacketModel, RawModel};
use crate::round_trip::law_message_found_again;
use vstd::prelude::*;

verus! {

/// The packets of a message, by its shape: an announced signature stands behind what it
/// signs, any other before it, and session keys stand before the data.
pub proof fn law_packets_by_shape(m: MessageModel)
    ensures
        match m {
            MessageModel::Literal(l) => m.packets() == seq![PacketModel::LiteralData(l)],
            MessageModel::Compressed(c) => m.packets() == seq![PacketModel::CompressedData(c)],
            MessageModel::Encrypted { esk, edata } => m.packets() == esk + edata,
            MessageModel::Signed { message: None, one_pass_signature: None, signature } =>
                m.packets() == seq![PacketModel::Signature(signature)],
            MessageModel::Signed { message: None, one_pass_signature: Some(o), signature } =>
                m.packets() == seq![
                PacketModel::OnePassSignature(o),
                PacketModel::Signature(signature),
            ],
            MessageModel::Signed { message: Some(x), one_pass_signature: None, signature } =>
                m.packets() == seq![PacketModel::Signature(signature)] + x.packets(),
            MessageModel::Signed { message: Some(x), one_pass_signature: Some(o), signature } =>
                m.packets() == seq![PacketModel::OnePassSignature(o)] + x.packets() + seq![
                PacketModel::Signature(signature),
            ],
        },
{
    match m {
        MessageModel::Signed { message: None, one_pass_signature: None, signature } => {
            assert(m.packets() =~= seq![PacketModel::Signature(signature)]);
        },
        MessageModel::Signed { message: None, one_pass_signature: Some(o), signature } => {
            assert(m.packets() =~= seq![
                PacketModel::OnePassSignature(o),
                PacketModel::Signature(signature),
            ]);
        },
        _ => {},
    }
}

/// Packets are written one after the other, each as it is written alone, up to the first
/// that cannot be written, whose error is given.
pub proof fn law_packets_are_written_in_turn(
    a: Seq<PacketModel>,
    b: Seq<PacketModel>,
    p: PacketModel,
)
    ensures
        written(Seq::empty()) == Seq::<u8>::empty(),
        write_error(Seq::empty()) is None,
        write_error(seq![p]) == p.error(),
        p.error() is None ==> written(seq![p]) == p.bytes(),
        p.error() is Some ==> written(seq![p]) == Seq::<u8>::empty(),
        write_error(a) is None ==> {
            &&& write_error(a + b) == write_error(b)
            &&& written(a + b) == written(a) + written(b)
        },
        write_error(a) is Some ==> write_error(a + b) == write_error(a) && written(a + b)
            == written(a),
{
    lemma_written_concat(a, b);
    lemma_written_one(p);
}

/// A message can be written if and only if each of its packets can; otherwise the error is
/// that of the first packet that cannot.
pub proof fn law_wire_fails_with_the_first_packet(m: MessageModel)
    ensures
        m.wire() is Ok <==> forall|i: int|
            0 <= i < m.packets().len() ==> (#[trigger] m.packets()[i]).error() is None,
        m.wire() matches Ok(bytes) ==> bytes == written(m.packets()),
        m.wire() matches Err(e) ==> exists|i: int|
            {
                &&& 0 <= i < m.packets().len()
                &&& (#[trigger] m.packets()[i]).error() == Some(e)
                &&& forall|j: int| 0 <= j < i ==> (#[trigger] m.packets()[j]).error() is None
            },
{
    lemma_first_error(m.packets());
}

proof fn lemma_first_error(ps: Seq<PacketModel>)
    ensures
        write_error(ps) is None <==> forall|i: int|
            0 <= i < ps.len() ==> (#[trigger] ps[i]).error() is None,
        write_error(ps) matches Some(e) ==> exists|i: int|
            {
                &&& 0 <= i < ps.len()
                &&& (#[trigger] ps[i]).error() == Some(e)
                &&& forall|j: int| 0 <= j < i ==> (#[trigger] ps[j]).error() is None
            },
    decreases ps.len(),
{
    if ps.len() > 0 {
        let tail = ps.skip(1);
        lemma_first_error(tail);
        if ps[0].error() is Some {
            assert(ps[0].error() is Some);
        } else {
            match write_error(tail) {
                Some(e) => {
                    let i = choose|i: int|
                        {
                            &&& 0 <= i < tail.len()
                            &&& (#[trigger] tail[i]).error() == Some(e)
                            &&& forall|j: int| 0 <= j < i ==> (#[trigger] tail[j]).error() is None
                        };
                    assert(ps[i + 1] == tail[i]);
                    assert forall|j: int| 0 <= j < i + 1 implies (#[trigger] ps[j]).error() is
                        None by {
                        if j > 0 {
                            assert(tail[j - 1] == ps[j]);
                        }
                    }
                },
                None => {
                    assert forall|i: int| 0 <= i < ps.len() implies (#[trigger] ps[i]).error() is
                        None by {
                        if i > 0 {
                            assert(tail[i - 1] == ps[i]);
                        }
                    }
                },
            }
        }
    }
}

/// Markers are passed over, and any other packet is the next one.
pub proof fn law_next_packet_is_not_a_marker(p: PacketModel, s: Seq<u8>)
    requires
        p.error() is None,
    ensures
        next_packet(Seq::empty()) == Ok::<Option<(PacketModel, Seq<u8>)>, Error>(None),
        p is Marker ==> next_packet(p.bytes() + s) == next_packet(s),
        !(p is Marker) ==> next_packet(p.bytes() + s) == Ok::<
            Option<(PacketModel, Seq<u8>)>,
            Error,
        >(Some((p, s))),
        s.len() > 0 ==> (packet_at(s) matches Err(e) ==> next_packet(s) == Err::<
            Option<(PacketModel, Seq<u8>)>,
            Error,
        >(e)),
{
    law_packet_round_trip(p, s);
    lemma_packet_consumes(p.bytes() + s);
}

/// A marker before a message changes nothing.
pub proof fn law_marker_before_a_message(p: PacketModel, s: Seq<u8>)
    requires
        p is Marker,
        p.error() is None,
    ensures
        message_at(p.bytes() + s) is Ok <==> message_at(s) is Ok,
        message_of(p.bytes() + s) == message_of(s),
{
    law_next_packet_is_not_a_marker(p, s);
    lemma_same_leading(false, p.bytes() + s, s);
    let a = leading(false, p.bytes() + s);
    let b = leading(false, s);
    if a.0.len() == 0 {
        lemma_same_leading(true, p.bytes() + s, s);
    }
}

proof fn lemma_same_leading(data: bool, s: Seq<u8>, t: Seq<u8>)
    requires
        next_packet(s) == next_packet(t),
    ensures
        leading(data, s).0 == leading(data, t).0,
        leading(data, s).0.len() > 0 ==> leading(data, s).1 == leading(data, t).1,
        leading(data, s).0.len() == 0 ==> leading(data, s).1 == s && leading(data, t).1 == t,
{
    lemma_next_consumes(s);
    lemma_next_consumes(t);
}

/// Whether the packets, but for markers, that stand at the head of `s` before `rest` are
/// the given ones.
pub open spec fn holds_packets(s: Seq<u8>, ps: Seq<PacketModel>, rest: Seq<u8>) -> bool
    decreases ps.len(),
{
    if ps.len() == 0 {
        s == rest || (rest.len() == 0 && next_packet(s) == Ok::<
            Option<(PacketModel, Seq<u8>)>,
            Error,
        >(None))
    } else {
        &&& next_packet(s) matches Ok(Some((p, t)))
        &&& p == ps[0]
        &&& holds_packets(t, ps.skip(1), rest)
    }
}

proof fn lemma_holds_concat(
    s: Seq<u8>,
    a: Seq<PacketModel>,
    t: Seq<u8>,
    b: Seq<PacketModel>,
    u: Seq<u8>,
)
    requires
        holds_packets(s, a, t),
        holds_packets(t, b, u),
    ensures
        holds_packets(s, a + b, u),
    decreases a.len(),
{
    if a.len() == 0 {
        assert(a + b =~= b);
        if s != t {
            assert(t =~= Seq::empty());
            assert(b.len() == 0);
        }
    } else {
        let next = next_packet(s)->Ok_0->Some_0.1;
        lemma_holds_concat(next, a.skip(1), t, b, u);
        assert((a + b).skip(1) =~= a.skip(1) + b);
    }
}

proof fn lemma_holds_one(s: Seq<u8>)
    ensures
        next_packet(s) matches Ok(Some((p, t))) ==> holds_packets(s, seq![p], t),
{
    if let Ok(Some((p, t))) = next_packet(s) {
        assert(seq![p].skip(1) =~= Seq::empty());
        assert(holds_packets(t, seq![p].skip(1), t));
    }
}

proof fn lemma_leading_holds(data: bool, s: Seq<u8>)
    ensures
        holds_packets(s, leading(data, s).0, leading(data, s).1),
    decreases s.len(),
{
    lemma_next_consumes(s);
    match next_packet(s) {
        Ok(Some((p, rest))) => {
            if is_part(data, p) {
                lemma_leading_holds(data, rest);
                lemma_holds_one(s);
                lemma_holds_concat(
                    s,
                    seq![p],
                    rest,
                    leading(data, rest).0,
                    leading(data, rest).1,
                );
            }
        },
        _ => {},
    }
}

/// A message that is read is made of the packets that stand there, in their order, and of
/// no others: what is left is what comes after them.
pub proof fn law_message_is_made_of_its_packets(s: Seq<u8>)
    ensures
        message_at(s) matches Ok((m, rest)) ==> holds_packets(s, m.packets(), rest),
    decreases s.len(),
{
    lemma_next_consumes(s);
    lemma_holds_one(s);
    if let Ok((m, rest)) = message_at(s) {
        law_packets_by_shape(m);
        match next_packet(s) {
            Ok(Some((PacketModel::Signature(sig), t))) => {
                law_message_is_made_of_its_packets(t);
                let first = seq![PacketModel::Signature(sig)];
                if let MessageModel::Signed { message: Some(x), .. } = m {
                    lemma_holds_concat(s, first, t, x.packets(), rest);
                } else {
                    assert(first.skip(1) =~= Seq::empty());
                    assert(holds_packets(t, first.skip(1), rest));
                }
            },
            Ok(Some((PacketModel::OnePassSignature(o), t))) => {
                law_message_is_made_of_its_packets(t);
                let (x, more) = message_at(t)->Ok_0;
                let first = seq![PacketModel::OnePassSignature(o)];
                lemma_holds_concat(s, first, t, x.packets(), more);
                lemma_holds_one(more);
                let last = next_packet(more)->Ok_0->Some_0.0;
                lemma_holds_concat(s, first + x.packets(), more, seq![last], rest);
            },
            Ok(Some((PacketModel::LiteralData(_), _))) => {},
            Ok(Some((PacketModel::CompressedData(_), _))) => {},
            _ => {
                let (esk, more) = leading(false, s);
                let (edata, after) = leading(true, more);
                lemma_leading_holds(false, s);
                lemma_leading_holds(true, more);
                lemma_holds_concat(s, esk, more, edata, after);
            },
        }
    }
}

/// An announced signature must follow: another packet in its place, or the end of the
/// input, is an error.
pub proof fn law_announced_signature_must_follow(
    ops: RawModel,
    m: MessageModel,
    p: PacketModel,
    rest: Seq<u8>,
)
    requires
        m.wf(),
        m.delimited(),
        m.wire() is Ok,
        PacketModel::OnePassSignature(ops).error() is None,
        p.error() is None,
        !(p is Signature),
        !(p is Marker),
        !is_edata(p),
    ensures
        message_of(
            PacketModel::OnePassSignature(ops).bytes() + m.wire()->Ok_0 + p.bytes() + rest,
        ) == Err::<MessageModel, Error>(Error::UnexpectedPacket(p.tag().code())),
        message_of(PacketModel::OnePassSignature(ops).bytes() + m.wire()->Ok_0) == Err::<
            MessageModel,
            Error,
        >(Error::UnexpectedEof),
{
    let o = PacketModel::OnePassSignature(ops);
    let bytes = m.wire()->Ok_0;
    let after = p.bytes() + rest;
    law_next_packet_is_not_a_marker(p, rest);
    law_next_packet_is_not_a_marker(o, bytes + after);
    law_next_packet_is_not_a_marker(o, bytes);
    law_message_found_again(m, after);
    law_message_found_again(m, Seq::empty());
    assert(o.bytes() + bytes + p.bytes() + rest =~= o.bytes() + (bytes + after));
    assert(bytes + Seq::<u8>::empty() =~= bytes);
}

/// Session keys with no data after them are no message.
pub proof fn law_session_keys_need_data(k: PacketModel, s: Seq<u8>)
    requires
        is_esk(k),
        k.error() is None,
        next_packet(s) matches Ok(Some((p, _))) ==> !is_esk(p) && !is_edata(p),
    ensures
        message_of(k.bytes() + s) == Err::<MessageModel, Error>(Error::MissingEncryptedData),
{
    law_next_packet_is_not_a_marker(k, s);
    lemma_next_consumes(k.bytes() + s);
    assert(leading(false, s).0 =~= Seq::empty());
    assert(leading(false, k.bytes() + s).1 == s);
    assert(leading(true, s).0 =~= Seq::empty());
}

/// What begins with no packet that can be read is no message.
pub proof fn law_unreadable_packet_is_no_message(s: Seq<u8>)
    ensures
        next_packet(s) matches Err(e) ==> message_of(s) == Err::<MessageModel, Error>(e),
        next_packet(s) matches Ok(None) ==> message_of(s) == Err::<MessageModel, Error>(
            Error::UnexpectedEof,
        ),
{
}

/// What a message holds is all that its parts hold.
pub proof fn law_message_view_holds_every_part(m: Message)
    ensures
        match m {
            Message::Literal(l) => m@ == MessageModel::Literal(l@),
            Message::Compressed(c) => m@ == MessageModel::Compressed(c@),
            Message::Signed { message, one_pass_signature, signature } => match m@ {
                MessageModel::Signed {
                    message: x,
                    one_pass_signature: o,
                    signature: s,
                } => {
                    &&& s == signature@
                    &&& o is Some <==> one_pass_signature is Some
                    &&& one_pass_signature matches Some(ops) ==> o == Some(ops@)
                    &&& x is Some <==> message is Some
                    &&& message matches Some(inner) ==> *x->Some_0 == inner@
                },
                _ => false,
            },
            Message::Encrypted { esk, edata } => match m@ {
                MessageModel::Encrypted { esk: e, edata: d } => {
                    &&& e.len() == esk@.len()
                    &&& forall|i: int| 0 <= i < e.len() ==> #[trigger] e[i] == esk@[i]@
                    &&& d.len() == edata@.len()
                    &&& forall|i: int| 0 <= i < d.len() ==> #[trigger] d[i] == edata@[i]@
                },
                _ => false,
            },
        },
{
}

/// Which packets hold session keys and which hold encrypted data.
pub proof fn law_parts_of_an_encrypted_message(p: PacketModel)
    ensures
        is_esk(p) <==> p is PublicKeyEncryptedSessionKey || p is SymKeyEncryptedSessionKey,
        is_edata(p) <==> p is SymEncryptedData || p is SymEncryptedProtectedData,
{
}

/// A message that is read is the one at the head of the octets, whatever comes after it.
pub proof fn law_first_message_is_read(s: Seq<u8>)
    ensures
        match message_at(s) {
            Ok((m, _)) => message_of(s) == Ok::<MessageModel, Error>(m),
            Err(e) => message_of(s) == Err::<MessageModel, Error>(e),
        },
{
}

} // verus!
