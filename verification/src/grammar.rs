//! How a message is read from its packets.
use crate::encrypted::{is_edata, is_esk, Edata, Esk};
use crate::errors::Error;
use crate::message::{edata_models, esk_models, Message, MessageModel};
use crate::packet::{lemma_packet_consumes, packet_at, read_packet, Packet, PacketModel};
use vstd::prelude::*;

verus! {

/// The first packet in `s` that is not a marker, and what comes after it; nothing
/// where only markers are left.
pub open spec fn next_packet(s: Seq<u8>) -> Result<Option<(PacketModel, Seq<u8>)>, Error>
    decreases s.len(),
{
    if s.len() == 0 {
        Ok(None)
    } else {
        match packet_at(s) {
            Ok((p, rest)) => if p is Marker {
                proof {
                    lemma_packet_consumes(s);
                }
                next_packet(rest)
            } else {
                Ok(Some((p, rest)))
            },
            Err(e) => Err(e),
        }
    }
}

/// Whether a packet holds encrypted data (`data`) or an encrypted session key.
pub open spec fn is_part(data: bool, p: PacketModel) -> bool {
    if data {
        is_edata(p)
    } else {
        is_esk(p)
    }
}

/// The packets of one of the two kinds at the head of `s`, as many as there are, and
/// what comes after them.
pub open spec fn leading(data: bool, s: Seq<u8>) -> (Seq<PacketModel>, Seq<u8>)
    decreases s.len(),
{
    match next_packet(s) {
        Ok(Some((p, rest))) => if is_part(data, p) {
            proof {
                lemma_next_consumes(s);
            }
            let (more, after) = leading(data, rest);
            (seq![p] + more, after)
        } else {
            (Seq::empty(), s)
        },
        _ => (Seq::empty(), s),
    }
}

/// The message at the head of `s`, and what comes after it:
///
/// - literal data;
/// - compressed data;
/// - encrypted data, after any number of encrypted session keys;
/// - a signature, and the message that it signs unless the input ends there;
/// - the announcement of a signature, the signed message, and the signature.
pub open spec fn message_at(s: Seq<u8>) -> Result<(MessageModel, Seq<u8>), Error>
    decreases s.len(),
{
    match next_packet(s) {
        Err(e) => Err(e),
        Ok(None) => Err(Error::UnexpectedEof),
        Ok(Some((p, rest))) => match p {
            PacketModel::LiteralData(data) => Ok((MessageModel::Literal(data), rest)),
            PacketModel::CompressedData(data) => Ok((MessageModel::Compressed(data), rest)),
            PacketModel::Signature(signature) => {
                proof {
                    lemma_next_consumes(s);
                }
                if next_packet(rest) == Ok::<Option<(PacketModel, Seq<u8>)>, Error>(None) {
                    Ok(
                        (
                            MessageModel::Signed {
                                message: None,
                                one_pass_signature: None,
                                signature,
                            },
                            Seq::empty(),
                        ),
                    )
                } else {
                    match message_at(rest) {
                        Ok((m, after)) => Ok(
                            (
                                MessageModel::Signed {
                                    message: Some(Box::new(m)),
                                    one_pass_signature: None,
                                    signature,
                                },
                                after,
                            ),
                        ),
                        Err(e) => Err(e),
                    }
                }
            },
            PacketModel::OnePassSignature(ops) => {
                proof {
                    lemma_next_consumes(s);
                }
                match message_at(rest) {
                    Ok((m, more)) => match next_packet(more) {
                        Ok(Some((PacketModel::Signature(signature), after))) => Ok(
                            (
                                MessageModel::Signed {
                                    message: Some(Box::new(m)),
                                    one_pass_signature: Some(ops),
                                    signature,
                                },
                                after,
                            ),
                        ),
                        Ok(Some((q, _))) => Err(Error::UnexpectedPacket(q.tag().code())),
                        Ok(None) => Err(Error::UnexpectedEof),
                        Err(e) => Err(e),
                    },
                    Err(e) => Err(e),
                }
            },
            _ => {
                let (esk, more) = leading(false, s);
                let (edata, after) = leading(true, more);
                if edata.len() == 0 {
                    Err(Error::MissingEncryptedData)
                } else {
                    Ok((MessageModel::Encrypted { esk, edata }, after))
                }
            },
        },
    }
}

/// The message that octets hold: the first one, whatever comes after it.
pub open spec fn message_of(s: Seq<u8>) -> Result<MessageModel, Error> {
    match message_at(s) {
        Ok((m, _)) => Ok(m),
        Err(e) => Err(e),
    }
}

/// Reading a packet leaves less than there was.
pub proof fn lemma_next_consumes(s: Seq<u8>)
    ensures
        next_packet(s) matches Ok(Some((p, rest))) ==> rest.len() < s.len() && !(p is Marker),
    decreases s.len(),
{
    lemma_packet_consumes(s);
    match packet_at(s) {
        Ok((p, rest)) => {
            if p is Marker {
                lemma_next_consumes(rest);
            }
        },
        Err(_) => {},
    }
}

fn read_next<'a>(s: &'a [u8]) -> (r: Result<Option<(Packet, &'a [u8])>, Error>)
    ensures
        match next_packet(s@) {
            Ok(Some((p, rest))) => {
                &&& r matches Ok(Some((x, t))) && x@ == p && t@ == rest
                &&& rest.len() < s@.len()
                &&& !(p is Marker)
            },
            Ok(None) => r matches Ok(None),
            Err(e) => r == Err::<Option<(Packet, &'a [u8])>, Error>(e),
        },
{
    proof {
        lemma_next_consumes(s@);
    }
    let mut cur = s;
    while cur.len() > 0
        invariant
            next_packet(cur@) == next_packet(s@),
            next_packet(s@) matches Ok(Some((p, rest))) ==> rest.len() < s@.len() && !(p is Marker),
        decreases cur@.len(),
    {
        match read_packet(cur) {
            Ok((Packet::Marker(_), rest)) => {
                cur = rest;
            },
            Ok((p, rest)) => {
                return Ok(Some((p, rest)));
            },
            Err(e) => {
                return Err(e);
            },
        }
    }
    Ok(None)
}

fn read_esks<'a>(s: &'a [u8]) -> (r: (Vec<Esk>, &'a [u8]))
    ensures
        (esk_models(r.0@), r.1@) == leading(false, s@),
{
    let mut esk: Vec<Esk> = Vec::new();
    let mut cur = s;
    let ghost all = leading(false, s@);
    assert(esk_models(esk@) + leading(false, cur@).0 =~= all.0);
    loop
        invariant
            all == leading(false, s@),
            esk_models(esk@) + leading(false, cur@).0 == all.0,
            leading(false, cur@).1 == all.1,
        decreases cur@.len(),
    {
        let found = read_next(cur);
        let (key, rest) = match found {
            Ok(Some((Packet::PublicKeyEncryptedSessionKey(k), rest))) => (
                Esk::PublicKeyEncryptedSessionKey(k),
                rest,
            ),
            Ok(Some((Packet::SymKeyEncryptedSessionKey(k), rest))) => (
                Esk::SymKeyEncryptedSessionKey(k),
                rest,
            ),
            _ => {
                assert(esk_models(esk@) =~= all.0);
                return (esk, cur);
            },
        };
        let ghost before = esk@;
        esk.push(key);
        proof {
            assert(esk_models(esk@) =~= esk_models(before).push(key@));
            assert(esk_models(esk@) + leading(false, rest@).0 =~= esk_models(before) + (seq![key@]
                + leading(false, rest@).0));
        }
        cur = rest;
    }
}

fn read_edatas<'a>(s: &'a [u8]) -> (r: (Vec<Edata>, &'a [u8]))
    ensures
        (edata_models(r.0@), r.1@) == leading(true, s@),
{
    let mut edata: Vec<Edata> = Vec::new();
    let mut cur = s;
    let ghost all = leading(true, s@);
    assert(edata_models(edata@) + leading(true, cur@).0 =~= all.0);
    loop
        invariant
            all == leading(true, s@),
            edata_models(edata@) + leading(true, cur@).0 == all.0,
            leading(true, cur@).1 == all.1,
        decreases cur@.len(),
    {
        let found = read_next(cur);
        let (data, rest) = match found {
            Ok(Some((Packet::SymEncryptedData(d), rest))) => (Edata::SymEncryptedData(d), rest),
            Ok(Some((Packet::SymEncryptedProtectedData(d), rest))) => (
                Edata::SymEncryptedProtectedData(d),
                rest,
            ),
            _ => {
                assert(edata_models(edata@) =~= all.0);
                return (edata, cur);
            },
        };
        let ghost before = edata@;
        edata.push(data);
        proof {
            assert(edata_models(edata@) =~= edata_models(before).push(data@));
            assert(edata_models(edata@) + leading(true, rest@).0 =~= edata_models(before) + (seq![
                data@,
            ] + leading(true, rest@).0));
        }
        cur = rest;
    }
}

/// Reads the message at the head of `s`, and says what comes after it.
pub fn read_message<'a>(s: &'a [u8]) -> (r: Result<(Message, &'a [u8]), Error>)
    ensures
        match message_at(s@) {
            Ok((m, rest)) => r matches Ok((x, t)) && x@ == m && t@ == rest,
            Err(e) => r == Err::<(Message, &'a [u8]), Error>(e),
        },
    decreases s@.len(),
{
    let (packet, rest) = match read_next(s) {
        Ok(Some(found)) => found,
        Ok(None) => {
            return Err(Error::UnexpectedEof);
        },
        Err(e) => {
            return Err(e);
        },
    };
    match packet {
        Packet::LiteralData(data) => Ok((Message::Literal(data), rest)),
        Packet::CompressedData(data) => Ok((Message::Compressed(data), rest)),
        Packet::Signature(signature) => {
            if let Ok(None) = read_next(rest) {
                let none = vstd::slice::slice_subrange(rest, rest.len(), rest.len());
                assert(none@ =~= Seq::<u8>::empty());
                return Ok(
                    (
                        Message::Signed { message: None, one_pass_signature: None, signature },
                        none,
                    ),
                );
            }
            match read_message(rest) {
                Ok((m, after)) => Ok(
                    (
                        Message::Signed {
                            message: Some(Box::new(m)),
                            one_pass_signature: None,
                            signature,
                        },
                        after,
                    ),
                ),
                Err(e) => Err(e),
            }
        },
        Packet::OnePassSignature(ops) => match read_message(rest) {
            Ok((m, more)) => match read_next(more) {
                Ok(Some((Packet::Signature(signature), after))) => Ok(
                    (
                        Message::Signed {
                            message: Some(Box::new(m)),
                            one_pass_signature: Some(ops),
                            signature,
                        },
                        after,
                    ),
                ),
                Ok(Some((q, _))) => Err(Error::UnexpectedPacket(q.tag().code())),
                Ok(None) => Err(Error::UnexpectedEof),
                Err(e) => Err(e),
            },
            Err(e) => Err(e),
        },
        _ => {
            let (esk, more) = read_esks(s);
            let (edata, after) = read_edatas(more);
            if edata.len() == 0 {
                Err(Error::MissingEncryptedData)
            } else {
                Ok((Message::Encrypted { esk, edata }, after))
            }
        },
    }
}

impl Message {
    /// Reads the message that octets hold: the first one, whatever comes after it.
    pub fn from_bytes(bytes: &[u8]) -> (r: Result<Message, Error>)
        ensures
            match message_of(bytes@) {
                Ok(m) => r matches Ok(x) && x@ == m,
                Err(e) => r == Err::<Message, Error>(e),
            },
    {
        match read_message(bytes) {
            Ok((m, _)) => Ok(m),
            Err(e) => Err(e),
        }
    }
}

} // verus!
