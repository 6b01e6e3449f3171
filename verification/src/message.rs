//! Messages, and the packets that they are written as.
use crate::encrypted::{is_edata, is_esk, Edata, Esk};
use crate::errors::Error;
use crate::packet::{
    packet_written, CompressedData, CompressedModel, LiteralData, LiteralModel, OnePassSignature,
    PacketModel, RawModel, Signature,
};
use vstd::prelude::*;

verus! {

/// An OpenPGP message.
#[derive(Debug, PartialEq, Eq)]
pub enum Message {
    Literal(LiteralData),
    Compressed(CompressedData),
    Signed {
        /// The message that is signed; none for a signature that stands alone.
        message: Option<Box<Message>>,
        /// The announcement of the signature, where it follows the message.
        one_pass_signature: Option<OnePassSignature>,
        /// The signature itself.
        signature: Signature,
    },
    Encrypted { esk: Vec<Esk>, edata: Vec<Edata> },
}

/// What a message holds.
#[verifier::ext_equal]
pub enum MessageModel {
    Literal(LiteralModel),
    Compressed(CompressedModel),
    Signed {
        message: Option<Box<MessageModel>>,
        one_pass_signature: Option<RawModel>,
        signature: RawModel,
    },
    Encrypted { esk: Seq<PacketModel>, edata: Seq<PacketModel> },
}

/// What a list of encrypted session keys holds.
pub open spec fn esk_models(esk: Seq<Esk>) -> Seq<PacketModel> {
    esk.map_values(|e: Esk| e@)
}

/// What a list of encrypted data holds.
pub open spec fn edata_models(edata: Seq<Edata>) -> Seq<PacketModel> {
    edata.map_values(|e: Edata| e@)
}

impl Message {
    /// What the message holds.
    pub open spec fn model(&self) -> MessageModel
        decreases self,
    {
        match self {
            Message::Literal(data) => MessageModel::Literal(data@),
            Message::Compressed(data) => MessageModel::Compressed(data@),
            Message::Signed { message, one_pass_signature, signature } => MessageModel::Signed {
                message: match message {
                    Some(m) => Some(Box::new(m.model())),
                    None => None,
                },
                one_pass_signature: match one_pass_signature {
                    Some(ops) => Some(ops@),
                    None => None,
                },
                signature: signature@,
            },
            Message::Encrypted { esk, edata } => MessageModel::Encrypted {
                esk: esk_models(esk@),
                edata: edata_models(edata@),
            },
        }
    }
}

impl View for Message {
    type V = MessageModel;

    open spec fn view(&self) -> MessageModel {
        self.model()
    }
}

impl Clone for Message {
    fn clone(&self) -> (copy: Self)
        ensures
            copy@ == self@,
        decreases self,
    {
        match self {
            Message::Literal(data) => Message::Literal(data.clone()),
            Message::Compressed(data) => Message::Compressed(data.clone()),
            Message::Signed { message, one_pass_signature, signature } => Message::Signed {
                message: match message {
                    Some(m) => Some(Box::new((&**m).clone())),
                    None => None,
                },
                one_pass_signature: match one_pass_signature {
                    Some(ops) => Some(ops.clone()),
                    None => None,
                },
                signature: signature.clone(),
            },
            Message::Encrypted { esk, edata } => {
                let mut esk_copy: Vec<Esk> = Vec::new();
                for i in 0..esk.len()
                    invariant
                        esk_copy@.len() == i,
                        forall|j: int| 0 <= j < i ==> #[trigger] esk_copy@[j]@ == esk@[j]@,
                {
                    esk_copy.push(esk[i].clone());
                }
                let mut edata_copy: Vec<Edata> = Vec::new();
                for i in 0..edata.len()
                    invariant
                        edata_copy@.len() == i,
                        forall|j: int| 0 <= j < i ==> #[trigger] edata_copy@[j]@ == edata@[j]@,
                {
                    edata_copy.push(edata[i].clone());
                }
                assert(esk_models(esk_copy@) =~= esk_models(esk@));
                assert(edata_models(edata_copy@) =~= edata_models(edata@));
                Message::Encrypted { esk: esk_copy, edata: edata_copy }
            },
        }
    }
}

impl MessageModel {
    /// Whether the session keys and the encrypted data, at any depth, are packets of
    /// those kinds. Every message is.
    pub open spec fn wf(self) -> bool
        decreases self,
    {
        match self {
            MessageModel::Signed { message: Some(m), .. } => m.wf(),
            MessageModel::Encrypted { esk, edata } => {
                &&& forall|i: int| 0 <= i < esk.len() ==> is_esk(#[trigger] esk[i])
                &&& forall|i: int| 0 <= i < edata.len() ==> is_edata(#[trigger] edata[i])
            },
            _ => true,
        }
    }

    /// The packets that the message is written as, in their order.
    pub open spec fn packets(self) -> Seq<PacketModel>
        decreases self,
    {
        match self {
            MessageModel::Literal(data) => seq![PacketModel::LiteralData(data)],
            MessageModel::Compressed(data) => seq![PacketModel::CompressedData(data)],
            MessageModel::Signed { message, one_pass_signature, signature } => {
                let signed = match message {
                    Some(m) => m.packets(),
                    None => Seq::empty(),
                };
                let sig = seq![PacketModel::Signature(signature)];
                match one_pass_signature {
                    Some(ops) => seq![PacketModel::OnePassSignature(ops)] + signed + sig,
                    None => sig + signed,
                }
            },
            MessageModel::Encrypted { esk, edata } => esk + edata,
        }
    }

    /// The octets that the message is written as, or why it cannot be written.
    pub open spec fn wire(self) -> Result<Seq<u8>, Error> {
        match write_error(self.packets()) {
            None => Ok(written(self.packets())),
            Some(e) => Err(e),
        }
    }
}

/// The octets of packets one after the other, up to the first that cannot be written.
pub open spec fn written(ps: Seq<PacketModel>) -> Seq<u8>
    decreases ps.len(),
{
    if ps.len() == 0 || ps[0].error() is Some {
        Seq::empty()
    } else {
        ps[0].bytes() + written(ps.skip(1))
    }
}

/// Why the first packet that cannot be written cannot be, if there is one.
pub open spec fn write_error(ps: Seq<PacketModel>) -> Option<Error>
    decreases ps.len(),
{
    if ps.len() == 0 {
        None
    } else if ps[0].error() is Some {
        ps[0].error()
    } else {
        write_error(ps.skip(1))
    }
}

/// What writing packets one after the other does: it appends those before the first
/// that cannot be written, and fails if there is one.
pub open spec fn packets_written(
    ps: Seq<PacketModel>,
    before: Seq<u8>,
    after: Seq<u8>,
    r: Result<(), Error>,
) -> bool {
    &&& after == before + written(ps)
    &&& match write_error(ps) {
        None => r is Ok,
        Some(e) => r == Err::<(), Error>(e),
    }
}

/// Writing two lists of packets is writing the first, and then the second unless the
/// first failed.
pub proof fn lemma_written_concat(a: Seq<PacketModel>, b: Seq<PacketModel>)
    ensures
        write_error(a + b) == (if write_error(a) is Some {
            write_error(a)
        } else {
            write_error(b)
        }),
        written(a + b) == (if write_error(a) is Some {
            written(a)
        } else {
            written(a) + written(b)
        }),
    decreases a.len(),
{
    if a.len() == 0 {
        assert(a + b =~= b);
        assert(Seq::<u8>::empty() + written(b) =~= written(b));
    } else if a[0].error() is None {
        lemma_written_concat(a.skip(1), b);
        assert((a + b).skip(1) =~= a.skip(1) + b);
        assert(a[0].bytes() + (written(a.skip(1)) + written(b)) =~= a[0].bytes() + written(
            a.skip(1),
        ) + written(b));
    }
}

/// Writing one packet is writing the list of that packet.
pub proof fn lemma_written_one(p: PacketModel)
    ensures
        write_error(seq![p]) == p.error(),
        written(seq![p]) == (if p.error() is Some {
            Seq::empty()
        } else {
            p.bytes()
        }),
{
    let ps = seq![p];
    assert(ps.skip(1) =~= Seq::empty());
    assert(p.bytes() + Seq::<u8>::empty() =~= p.bytes());
    assert(write_error(ps.skip(1)) is None);
    assert(written(ps.skip(1)) =~= Seq::empty());
}

/// Writing one more packet after a list.
proof fn lemma_written_then(
    ps: Seq<PacketModel>,
    p: PacketModel,
    before: Seq<u8>,
    middle: Seq<u8>,
    after: Seq<u8>,
    r: Result<(), Error>,
)
    requires
        packets_written(ps, before, middle, Ok(())),
        packet_written(p, middle, after, r),
    ensures
        packets_written(ps.push(p), before, after, r),
{
    lemma_written_concat(ps, seq![p]);
    lemma_written_one(p);
    assert(ps.push(p) =~= ps + seq![p]);
    assert(after =~= before + written(ps.push(p)));
}

fn write_esks(esk: &Vec<Esk>, writer: &mut Vec<u8>) -> (r: Result<(), Error>)
    ensures
        packets_written(esk_models(esk@), old(writer)@, final(writer)@, r),
{
    let ghost before = writer@;
    let ghost ps = esk_models(esk@);
    assert(ps.take(0) =~= Seq::empty());
    for i in 0..esk.len()
        invariant
            before == old(writer)@,
            ps == esk_models(esk@),
            packets_written(ps.take(i as int), before, writer@, Ok(())),
    {
        let ghost middle = writer@;
        let r = esk[i].to_writer(writer);
        proof {
            lemma_written_then(ps.take(i as int), ps[i as int], before, middle, writer@, r);
            assert(ps.take(i + 1) =~= ps.take(i as int).push(ps[i as int]));
        }
        if r.is_err() {
            proof {
                lemma_written_concat(ps.take(i + 1), ps.skip(i + 1));
                assert(ps.take(i + 1) + ps.skip(i + 1) =~= ps);
            }
            return r;
        }
    }
    assert(ps.take(esk@.len() as int) =~= ps);
    Ok(())
}

fn write_edatas(edata: &Vec<Edata>, writer: &mut Vec<u8>) -> (r: Result<(), Error>)
    ensures
        packets_written(edata_models(edata@), old(writer)@, final(writer)@, r),
{
    let ghost before = writer@;
    let ghost ps = edata_models(edata@);
    assert(ps.take(0) =~= Seq::empty());
    for i in 0..edata.len()
        invariant
            before == old(writer)@,
            ps == edata_models(edata@),
            packets_written(ps.take(i as int), before, writer@, Ok(())),
    {
        let ghost middle = writer@;
        let r = edata[i].to_writer(writer);
        proof {
            lemma_written_then(ps.take(i as int), ps[i as int], before, middle, writer@, r);
            assert(ps.take(i + 1) =~= ps.take(i as int).push(ps[i as int]));
        }
        if r.is_err() {
            proof {
                lemma_written_concat(ps.take(i + 1), ps.skip(i + 1));
                assert(ps.take(i + 1) + ps.skip(i + 1) =~= ps);
            }
            return r;
        }
    }
    assert(ps.take(edata@.len() as int) =~= ps);
    Ok(())
}

impl Message {
    /// Every message is well-formed.
    pub proof fn lemma_wf(&self)
        ensures
            self@.wf(),
        decreases self,
    {
        match self {
            Message::Signed { message: Some(m), .. } => m.lemma_wf(),
            _ => {},
        }
    }

    /// Writes the message's packets, one after the other: a signature before what it
    /// signs, or behind it where it is announced before. Where a packet cannot be written,
    /// those before it have been.
    pub fn to_writer(&self, writer: &mut Vec<u8>) -> (r: Result<(), Error>)
        ensures
            packets_written(self@.packets(), old(writer)@, final(writer)@, r),
        decreases self,
    {
        let ghost before = writer@;
        let ghost all = self@.packets();
        match self {
            Message::Literal(data) => {
                let r = data.to_writer(writer);
                proof {
                    lemma_written_one(all[0]);
                    assert(all =~= seq![all[0]]);
                    assert(writer@ =~= before + written(all));
                }
                r
            },
            Message::Compressed(data) => {
                let r = data.to_writer(writer);
                proof {
                    lemma_written_one(all[0]);
                    assert(all =~= seq![all[0]]);
                    assert(writer@ =~= before + written(all));
                }
                r
            },
            Message::Signed { message, one_pass_signature, signature } => {
                let ghost signed = match self@ {
                    MessageModel::Signed { message: Some(m), .. } => m.packets(),
                    _ => Seq::empty(),
                };
                let ghost sig = seq![PacketModel::Signature(signature@)];
                proof {
                    lemma_written_one(PacketModel::Signature(signature@));
                }
                if let Some(ops) = one_pass_signature {
                    let ghost announced = seq![PacketModel::OnePassSignature(ops@)];
                    proof {
                        lemma_written_one(PacketModel::OnePassSignature(ops@));
                        lemma_written_concat(announced, signed);
                        lemma_written_concat(announced + signed, sig);
                    }
                    let r = ops.to_writer(writer);
                    if r.is_err() {
                        assert(writer@ =~= before + written(all));
                        return r;
                    }
                    let ghost middle = writer@;
                    if let Some(message) = message {
                        let r = message.to_writer(writer);
                        if r.is_err() {
                            assert(writer@ =~= before + written(all));
                            return r;
                        }
                    }
                    assert(write_error(signed) is None);
                    assert(writer@ =~= middle + written(signed));
                    let r = signature.to_writer(writer);
                    assert(writer@ =~= before + written(all));
                    r
                } else {
                    proof {
                        lemma_written_concat(sig, signed);
                    }
                    let r = signature.to_writer(writer);
                    if r.is_err() {
                        assert(writer@ =~= before + written(all));
                        return r;
                    }
                    if let Some(message) = message {
                        let r = message.to_writer(writer);
                        assert(writer@ =~= before + written(all));
                        return r;
                    }
                    assert(writer@ =~= before + written(all));
                    Ok(())
                }
            },
            Message::Encrypted { esk, edata } => {
                proof {
                    lemma_written_concat(esk_models(esk@), edata_models(edata@));
                }
                let r = write_esks(esk, writer);
                if r.is_err() {
                    return r;
                }
                let r = write_edatas(edata, writer);
                assert(writer@ =~= before + written(all));
                r
            },
        }
    }

    /// The octets of the message.
    pub fn to_bytes(&self) -> (r: Result<Vec<u8>, Error>)
        ensures
            match self@.wire() {
                Ok(bytes) => r matches Ok(x) && x@ == bytes,
                Err(e) => r == Err::<Vec<u8>, Error>(e),
            },
    {
        let mut data: Vec<u8> = Vec::new();
        match self.to_writer(&mut data) {
            Ok(()) => {
                assert(data@ =~= written(self@.packets()));
                Ok(data)
            },
            Err(e) => Err(e),
        }
    }
}

} // verus!
