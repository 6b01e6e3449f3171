//! What is read back of a message that was written.
use crate::encrypted::{is_edata, is_esk};
use crate::errors::Error;
use crate::grammar::{
    is_part, leading, lemma_next_consumes, message_at, message_of, next_packet,
};
use crate::message::{
    lemma_written_concat, lemma_written_one, write_error, written, MessageModel,
};
use crate::packet::{law_packet_round_trip, lemma_packet_consumes, PacketModel, RawModel};
use vstd::prelude::*;

verus! {

impl MessageModel {
    /// Whether the message's packets tell where it ends: it is literal, compressed or
    /// encrypted data, or such a message under signatures.
    pub open spec fn delimited(self) -> bool
        decreases self,
    {
        match self {
            MessageModel::Literal(_) => true,
            MessageModel::Compressed(_) => true,
            MessageModel::Signed { message: Some(m), .. } => m.delimited(),
            MessageModel::Signed { message: None, .. } => false,
            MessageModel::Encrypted { edata, .. } => edata.len() > 0,
        }
    }

    /// Whether the message is nothing but signatures without announcements. It ends where
    /// the input ends.
    pub open spec fn open_ended(self) -> bool
        decreases self,
    {
        match self {
            MessageModel::Signed { message: None, one_pass_signature: None, .. } => true,
            MessageModel::Signed { message: Some(m), one_pass_signature: None, .. } =>
                m.open_ended(),
            _ => false,
        }
    }

    /// Whether the message has the shape of one that can be read: its encrypted data is
    /// not empty, and what lies between the announcement of a signature and the
    /// signature is a message that tells where it ends.
    pub open spec fn reads_back(self) -> bool {
        self.delimited() || self.open_ended()
    }

    /// Whether the message, written and read, is the same message.
    pub open spec fn comes_back(self) -> bool {
        self.wire() matches Ok(bytes) && message_of(bytes) == Ok::<MessageModel, Error>(self)
    }
}

/// Whether what comes next is more encrypted data, where `data` holds, and else
/// whether it is one more encrypted session key.
spec fn goes_on(data: bool, s: Seq<u8>) -> bool {
    next_packet(s) matches Ok(Some((p, _))) && is_part(data, p)
}

proof fn lemma_next_packet(p: PacketModel, rest: Seq<u8>)
    requires
        p.error() is None,
        !(p is Marker),
    ensures
        next_packet(p.bytes() + rest) == Ok::<Option<(PacketModel, Seq<u8>)>, Error>(
            Some((p, rest)),
        ),
{
    law_packet_round_trip(p, rest);
    lemma_packet_consumes(p.bytes() + rest);
}

proof fn lemma_leading(data: bool, ps: Seq<PacketModel>, rest: Seq<u8>)
    requires
        forall|i: int| 0 <= i < ps.len() ==> is_part(data, #[trigger] ps[i]),
        write_error(ps) is None,
        !goes_on(data, rest),
    ensures
        leading(data, written(ps) + rest) == (ps, rest),
    decreases ps.len(),
{
    if ps.len() == 0 {
        assert(written(ps) + rest =~= rest);
        assert(ps =~= Seq::empty());
    } else {
        let p = ps[0];
        let tail = ps.skip(1);
        assert(is_part(data, p));
        assert forall|i: int| 0 <= i < tail.len() implies is_part(data, #[trigger] tail[i]) by {
            assert(tail[i] == ps[i + 1]);
        }
        lemma_leading(data, tail, rest);
        lemma_next_packet(p, written(tail) + rest);
        assert(written(ps) + rest =~= p.bytes() + (written(tail) + rest));
        assert(seq![p] + tail =~= ps);
    }
}

/// Encrypted data is found again.
proof fn lemma_encrypted_round_trip(
    esk: Seq<PacketModel>,
    edata: Seq<PacketModel>,
    rest: Seq<u8>,
)
    requires
        forall|i: int| 0 <= i < esk.len() ==> is_esk(#[trigger] esk[i]),
        forall|i: int| 0 <= i < edata.len() ==> is_edata(#[trigger] edata[i]),
        edata.len() > 0,
        write_error(esk + edata) is None,
        !goes_on(true, rest),
    ensures
        message_at(written(esk + edata) + rest) == Ok::<(MessageModel, Seq<u8>), Error>(
            (MessageModel::Encrypted { esk, edata }, rest),
        ),
{
    lemma_written_concat(esk, edata);
    let data = written(edata) + rest;
    let s = written(esk) + data;
    assert(written(esk + edata) + rest =~= s);
    assert(is_edata(edata[0]));
    lemma_next_packet(edata[0], written(edata.skip(1)) + rest);
    assert(data =~= edata[0].bytes() + (written(edata.skip(1)) + rest));
    assert forall|i: int| 0 <= i < esk.len() implies is_part(false, #[trigger] esk[i]) by {
        assert(is_esk(esk[i]));
    }
    assert forall|i: int| 0 <= i < edata.len() implies is_part(true, #[trigger] edata[i]) by {
        assert(is_edata(edata[i]));
    }
    lemma_leading(false, esk, data);
    lemma_leading(true, edata, rest);
    if esk.len() > 0 {
        assert(is_esk(esk[0]));
        lemma_next_packet(esk[0], written(esk.skip(1)) + data);
        assert(s =~= esk[0].bytes() + (written(esk.skip(1)) + data));
    } else {
        assert(s =~= data);
    }
}

/// A message between the announcement of a signature and the signature is found again
/// if the message is.
proof fn lemma_announced_round_trip(
    inner: MessageModel,
    ops: RawModel,
    signature: RawModel,
    rest: Seq<u8>,
)
    requires
        ({
            let sig = PacketModel::Signature(signature);
            let after = sig.bytes() + rest;
            &&& sig.error() is None
            &&& PacketModel::OnePassSignature(ops).error() is None
            &&& message_at(written(inner.packets()) + after) == Ok::<
                (MessageModel, Seq<u8>),
                Error,
            >((inner, after))
        }),
    ensures
        message_at(
            PacketModel::OnePassSignature(ops).bytes() + (written(inner.packets()) + (
            PacketModel::Signature(signature).bytes() + rest)),
        ) == Ok::<(MessageModel, Seq<u8>), Error>(
            (
                MessageModel::Signed {
                    message: Some(Box::new(inner)),
                    one_pass_signature: Some(ops),
                    signature,
                },
                rest,
            ),
        ),
{
    let sig = PacketModel::Signature(signature);
    lemma_next_packet(sig, rest);
    lemma_next_packet(
        PacketModel::OnePassSignature(ops),
        written(inner.packets()) + (sig.bytes() + rest),
    );
}

/// A message that tells where it ends is found again, whatever comes after it that is
/// not more encrypted data.
proof fn lemma_delimited_round_trip(m: MessageModel, rest: Seq<u8>)
    requires
        m.wf(),
        m.delimited(),
        write_error(m.packets()) is None,
        !goes_on(true, rest),
    ensures
        message_at(written(m.packets()) + rest) == Ok::<(MessageModel, Seq<u8>), Error>((m, rest)),
    decreases m,
{
    match m {
        MessageModel::Literal(data) => {
            lemma_written_one(PacketModel::LiteralData(data));
            lemma_next_packet(PacketModel::LiteralData(data), rest);
        },
        MessageModel::Compressed(data) => {
            lemma_written_one(PacketModel::CompressedData(data));
            lemma_next_packet(PacketModel::CompressedData(data), rest);
        },
        MessageModel::Signed { message, one_pass_signature, signature } => {
            let inner = *message->Some_0;
            let sig = PacketModel::Signature(signature);
            lemma_written_one(sig);
            if let Some(announcement) = one_pass_signature {
                let ops = PacketModel::OnePassSignature(announcement);
                assert(m.packets() == seq![ops] + inner.packets() + seq![sig]);
                lemma_written_concat(seq![ops], inner.packets());
                lemma_written_concat(seq![ops] + inner.packets(), seq![sig]);
                lemma_written_one(ops);
                let after = sig.bytes() + rest;
                lemma_next_packet(sig, rest);
                lemma_delimited_round_trip(inner, after);
                lemma_announced_round_trip(inner, announcement, signature, rest);
                assert(written(m.packets()) + rest =~= ops.bytes() + (written(inner.packets())
                    + after));
            } else {
                assert(m.packets() == seq![sig] + inner.packets());
                lemma_written_concat(seq![sig], inner.packets());
                lemma_delimited_round_trip(inner, rest);
                lemma_next_packet(sig, written(inner.packets()) + rest);
                assert(written(m.packets()) + rest =~= sig.bytes() + (written(inner.packets())
                    + rest));
            }
        },
        MessageModel::Encrypted { esk, edata } => lemma_encrypted_round_trip(esk, edata, rest),
    }
}

/// Signatures that stand alone are found again, up to the end of the input.
proof fn lemma_open_ended_round_trip(m: MessageModel)
    requires
        m.open_ended(),
        write_error(m.packets()) is None,
    ensures
        message_at(written(m.packets())) == Ok::<(MessageModel, Seq<u8>), Error>(
            (m, Seq::empty()),
        ),
    decreases m,
{
    match m {
        MessageModel::Signed { message, one_pass_signature, signature } => {
            let sig = PacketModel::Signature(signature);
            lemma_written_one(sig);
            if let Some(inner) = message {
                assert(m.packets() == seq![sig] + inner.packets());
                lemma_written_concat(seq![sig], inner.packets());
                lemma_open_ended_round_trip(*inner);
                lemma_next_packet(sig, written(inner.packets()));
            } else {
                assert(m.packets() =~= seq![sig]);
                lemma_next_packet(sig, Seq::empty());
                assert(sig.bytes() + Seq::<u8>::empty() =~= sig.bytes());
            }
        },
        _ => {},
    }
}

/// A message that tells where it ends is found again, and what comes after it is left, if
/// that is not more encrypted data.
pub proof fn law_message_found_again(m: MessageModel, rest: Seq<u8>)
    requires
        m.wf(),
        m.delimited(),
        m.wire() is Ok,
        next_packet(rest) matches Ok(Some((p, _))) ==> !is_edata(p),
    ensures
        message_at(m.wire()->Ok_0 + rest) == Ok::<(MessageModel, Seq<u8>), Error>((m, rest)),
{
    lemma_delimited_round_trip(m, rest);
}

/// What was written is read back: a message that can be written is found again in its
/// octets, unless it is encrypted data without any data, or an announced signature of no
/// message or of one that does not tell where it ends (see `reads_back`).
pub proof fn law_message_round_trip(m: MessageModel)
    requires
        m.wf(),
        m.reads_back(),
        m.wire() is Ok,
    ensures
        message_of(m.wire()->Ok_0) == Ok::<MessageModel, Error>(m),
        m.comes_back(),
{
    let bytes = m.wire()->Ok_0;
    if m.delimited() {
        assert(bytes + Seq::<u8>::empty() =~= bytes);
        lemma_delimited_round_trip(m, Seq::empty());
    } else {
        lemma_open_ended_round_trip(m);
    }
}

proof fn lemma_read_shape(s: Seq<u8>)
    ensures
        message_at(s) matches Ok((m, rest)) ==> m.delimited() || (m.open_ended() && rest.len() == 0),
    decreases s.len(),
{
    lemma_next_consumes(s);
    match next_packet(s) {
        Ok(Some((PacketModel::Signature(_), rest))) => lemma_read_shape(rest),
        Ok(Some((PacketModel::OnePassSignature(_), rest))) => lemma_read_shape(rest),
        _ => {},
    }
}

/// Whatever is read has the shape of a message that can be read.
pub proof fn law_what_is_read_reads_back(s: Seq<u8>)
    ensures
        message_of(s) matches Ok(m) ==> m.reads_back(),
{
    lemma_read_shape(s);
}

/// A message that can be written comes back if and only if it has the shape of one that
/// can be read.
pub proof fn law_comes_back_iff_reads_back(m: MessageModel)
    requires
        m.wf(),
        m.wire() is Ok,
    ensures
        m.comes_back() <==> m.reads_back(),
{
    law_what_is_read_reads_back(m.wire()->Ok_0);
    if m.reads_back() {
        law_message_round_trip(m);
    }
}

} // verus!
