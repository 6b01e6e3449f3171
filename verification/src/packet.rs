//! The packets that messages are made of.
use crate::be::{be_bytes, be_value, push_be, read_be};
use crate::be::{lemma_be_bytes_of_value, lemma_be_value_of_bytes, lemma_pow256_values};
use crate::errors::Error;
use crate::frame::{frame_at, frame_error, header_bytes, read_frame, write_frame};
use crate::frame::{lemma_frame_consumes, lemma_frame_round_trip};
use crate::types::{CompressionAlgorithm, DataMode, KeyId, Tag, Version};
use vstd::prelude::*;
use vstd::slice::{slice_subrange, slice_to_vec};

verus! {

/// A packet of which only its octets matter here.
#[verifier::ext_equal]
pub struct RawModel {
    pub packet_version: Version,
    pub data: Seq<u8>,
}

/// What a public-key encrypted session key holds.
#[verifier::ext_equal]
pub struct PkeskModel {
    pub packet_version: Version,
    pub id: KeyId,
    pub algorithm: u8,
    pub mpis: Seq<u8>,
}

/// What a literal data packet holds.
#[verifier::ext_equal]
pub struct LiteralModel {
    pub packet_version: Version,
    pub mode: DataMode,
    pub file_name: Seq<u8>,
    pub created: u32,
    pub data: Seq<u8>,
}

/// What a compressed data packet holds.
#[verifier::ext_equal]
pub struct CompressedModel {
    pub packet_version: Version,
    pub algorithm: CompressionAlgorithm,
    pub data: Seq<u8>,
}

/// What a packet holds.
#[verifier::ext_equal]
pub enum PacketModel {
    PublicKeyEncryptedSessionKey(PkeskModel),
    Signature(RawModel),
    SymKeyEncryptedSessionKey(RawModel),
    OnePassSignature(RawModel),
    CompressedData(CompressedModel),
    SymEncryptedData(RawModel),
    Marker(RawModel),
    LiteralData(LiteralModel),
    SymEncryptedProtectedData(RawModel),
}

impl PacketModel {
    /// The kind of the packet.
    pub open spec fn tag(self) -> Tag {
        match self {
            PacketModel::PublicKeyEncryptedSessionKey(_) => Tag::PublicKeyEncryptedSessionKey,
            PacketModel::Signature(_) => Tag::Signature,
            PacketModel::SymKeyEncryptedSessionKey(_) => Tag::SymKeyEncryptedSessionKey,
            PacketModel::OnePassSignature(_) => Tag::OnePassSignature,
            PacketModel::CompressedData(_) => Tag::CompressedData,
            PacketModel::SymEncryptedData(_) => Tag::SymEncryptedData,
            PacketModel::Marker(_) => Tag::Marker,
            PacketModel::LiteralData(_) => Tag::LiteralData,
            PacketModel::SymEncryptedProtectedData(_) => Tag::SymEncryptedProtectedData,
        }
    }

    /// The header format that the packet is written in.
    pub open spec fn version(self) -> Version {
        match self {
            PacketModel::PublicKeyEncryptedSessionKey(p) => p.packet_version,
            PacketModel::Signature(p) => p.packet_version,
            PacketModel::SymKeyEncryptedSessionKey(p) => p.packet_version,
            PacketModel::OnePassSignature(p) => p.packet_version,
            PacketModel::CompressedData(p) => p.packet_version,
            PacketModel::SymEncryptedData(p) => p.packet_version,
            PacketModel::Marker(p) => p.packet_version,
            PacketModel::LiteralData(p) => p.packet_version,
            PacketModel::SymEncryptedProtectedData(p) => p.packet_version,
        }
    }

    /// The octets of the packet after its header.
    pub open spec fn body(self) -> Seq<u8> {
        match self {
            PacketModel::PublicKeyEncryptedSessionKey(p) => seq![3u8] + be_bytes(p.id.0 as nat, 8)
                + seq![p.algorithm] + p.mpis,
            PacketModel::Signature(p) => p.data,
            PacketModel::SymKeyEncryptedSessionKey(p) => p.data,
            PacketModel::OnePassSignature(p) => p.data,
            PacketModel::CompressedData(p) => seq![p.algorithm.code()] + p.data,
            PacketModel::SymEncryptedData(p) => p.data,
            PacketModel::Marker(p) => p.data,
            PacketModel::LiteralData(p) => seq![p.mode.code(), p.file_name.len() as u8]
                + p.file_name + be_bytes(p.created as nat, 4) + p.data,
            PacketModel::SymEncryptedProtectedData(p) => seq![1u8] + p.data,
        }
    }

    /// Why the packet cannot be written, if it cannot.
    pub open spec fn error(self) -> Option<Error> {
        if self matches PacketModel::LiteralData(p) && p.file_name.len() > 255 {
            Some(Error::FileNameTooLong)
        } else {
            frame_error(self.version(), self.tag(), self.body().len())
        }
    }

    /// All octets of the packet.
    pub open spec fn bytes(self) -> Seq<u8> {
        header_bytes(self.version(), self.tag(), self.body().len()) + self.body()
    }
}

/// What writing one packet does: it appends the packet's octets, or fails and
/// leaves the output as it was.
pub open spec fn packet_written(
    p: PacketModel,
    before: Seq<u8>,
    after: Seq<u8>,
    r: Result<(), Error>,
) -> bool {
    match p.error() {
        None => r is Ok && after == before + p.bytes(),
        Some(e) => r == Err::<(), Error>(e) && after == before,
    }
}

/// The packet that a tag number and a body stand for.
pub open spec fn packet_of(version: Version, code: u8, body: Seq<u8>) -> Result<
    PacketModel,
    Error,
> {
    let raw = RawModel { packet_version: version, data: body };
    if code == Tag::PublicKeyEncryptedSessionKey.code() {
        if body.len() >= 10 && body[0] == 3 {
            Ok(
                PacketModel::PublicKeyEncryptedSessionKey(
                    PkeskModel {
                        packet_version: version,
                        id: KeyId(be_value(body.subrange(1, 9)) as u64),
                        algorithm: body[9],
                        mpis: body.skip(10),
                    },
                ),
            )
        } else {
            Err(Error::InvalidBody)
        }
    } else if code == Tag::Signature.code() {
        Ok(PacketModel::Signature(raw))
    } else if code == Tag::SymKeyEncryptedSessionKey.code() {
        Ok(PacketModel::SymKeyEncryptedSessionKey(raw))
    } else if code == Tag::OnePassSignature.code() {
        Ok(PacketModel::OnePassSignature(raw))
    } else if code == Tag::CompressedData.code() {
        if body.len() >= 1 && CompressionAlgorithm::spec_from_code(body[0]) is Some {
            Ok(
                PacketModel::CompressedData(
                    CompressedModel {
                        packet_version: version,
                        algorithm: CompressionAlgorithm::spec_from_code(body[0])->0,
                        data: body.skip(1),
                    },
                ),
            )
        } else {
            Err(Error::InvalidBody)
        }
    } else if code == Tag::SymEncryptedData.code() {
        Ok(PacketModel::SymEncryptedData(raw))
    } else if code == Tag::Marker.code() {
        Ok(PacketModel::Marker(raw))
    } else if code == Tag::LiteralData.code() {
        if body.len() >= 2 && DataMode::spec_from_code(body[0]) is Some && body.len() >= 6
            + body[1] {
            let n = body[1] as int;
            Ok(
                PacketModel::LiteralData(
                    LiteralModel {
                        packet_version: version,
                        mode: DataMode::spec_from_code(body[0])->0,
                        file_name: body.subrange(2, 2 + n),
                        created: be_value(body.subrange(2 + n, 6 + n)) as u32,
                        data: body.skip(6 + n),
                    },
                ),
            )
        } else {
            Err(Error::InvalidBody)
        }
    } else if code == Tag::SymEncryptedProtectedData.code() {
        if body.len() >= 1 && body[0] == 1 {
            Ok(
                PacketModel::SymEncryptedProtectedData(
                    RawModel { packet_version: version, data: body.skip(1) },
                ),
            )
        } else {
            Err(Error::InvalidBody)
        }
    } else {
        Err(Error::UnexpectedPacket(code))
    }
}

/// The packet at the head of `s`, and what comes after it.
#[verifier::opaque]
pub open spec fn packet_at(s: Seq<u8>) -> Result<(PacketModel, Seq<u8>), Error> {
    match frame_at(s) {
        Ok(f) => match packet_of(f.version, f.code, f.body) {
            Ok(p) => Ok((p, f.rest)),
            Err(e) => Err(e),
        },
        Err(e) => Err(e),
    }
}

/// A public-key encrypted session key: a session key that only the holder of the
/// key with the given id can decrypt.
#[derive(Debug, PartialEq, Eq)]
pub struct PublicKeyEncryptedSessionKey {
    pub packet_version: Version,
    /// The key that the session key is encrypted to.
    pub id: KeyId,
    /// The number of the public-key algorithm.
    pub algorithm: u8,
    /// The encrypted session key, as the algorithm's own octets.
    pub mpis: Vec<u8>,
}

impl View for PublicKeyEncryptedSessionKey {
    type V = PkeskModel;

    open spec fn view(&self) -> PkeskModel {
        PkeskModel {
            packet_version: self.packet_version,
            id: self.id,
            algorithm: self.algorithm,
            mpis: self.mpis@,
        }
    }
}

impl Clone for PublicKeyEncryptedSessionKey {
    fn clone(&self) -> (copy: Self)
        ensures
            copy@ == self@,
    {
        PublicKeyEncryptedSessionKey {
            packet_version: self.packet_version,
            id: self.id,
            algorithm: self.algorithm,
            mpis: slice_to_vec(self.mpis.as_slice()),
        }
    }
}

impl PublicKeyEncryptedSessionKey {
    /// The key that the session key is encrypted to.
    pub fn id(&self) -> (id: &KeyId)
        ensures
            *id == self@.id,
    {
        &self.id
    }

    /// The encrypted session key.
    pub fn mpis(&self) -> (mpis: &Vec<u8>)
        ensures
            mpis == self.mpis,
    {
        &self.mpis
    }

    /// Writes the packet.
    pub fn to_writer(&self, writer: &mut Vec<u8>) -> (r: Result<(), Error>)
        ensures
            packet_written(
                PacketModel::PublicKeyEncryptedSessionKey(self@),
                old(writer)@,
                final(writer)@,
                r,
            ),
    {
        let mut body: Vec<u8> = Vec::new();
        body.push(3);
        push_be(&mut body, self.id.0, 8);
        body.push(self.algorithm);
        body.extend_from_slice(self.mpis.as_slice());
        assert(body@ =~= PacketModel::PublicKeyEncryptedSessionKey(self@).body());
        let ghost before = writer@;
        let r = write_frame(writer, self.packet_version, Tag::PublicKeyEncryptedSessionKey, &body);
        assert(r is Ok ==> writer@ =~= before + PacketModel::PublicKeyEncryptedSessionKey(
            self@,
        ).bytes());
        r
    }
}

/// A signature.
#[derive(Debug, PartialEq, Eq)]
pub struct Signature {
    pub packet_version: Version,
    pub data: Vec<u8>,
}

impl View for Signature {
    type V = RawModel;

    open spec fn view(&self) -> RawModel {
        RawModel { packet_version: self.packet_version, data: self.data@ }
    }
}

impl Clone for Signature {
    fn clone(&self) -> (copy: Self)
        ensures
            copy@ == self@,
    {
        Signature {
            packet_version: self.packet_version,
            data: slice_to_vec(self.data.as_slice()),
        }
    }
}

impl Signature {
    /// Writes the packet.
    pub fn to_writer(&self, writer: &mut Vec<u8>) -> (r: Result<(), Error>)
        ensures
            packet_written(PacketModel::Signature(self@), old(writer)@, final(writer)@, r),
    {
        let ghost before = writer@;
        let r = write_frame(writer, self.packet_version, Tag::Signature, &self.data);
        assert(r is Ok ==> writer@ =~= before + PacketModel::Signature(self@).bytes());
        r
    }
}

/// A session key that a password encrypts.
#[derive(Debug, PartialEq, Eq)]
pub struct SymKeyEncryptedSessionKey {
    pub packet_version: Version,
    pub data: Vec<u8>,
}

impl View for SymKeyEncryptedSessionKey {
    type V = RawModel;

    open spec fn view(&self) -> RawModel {
        RawModel { packet_version: self.packet_version, data: self.data@ }
    }
}

impl Clone for SymKeyEncryptedSessionKey {
    fn clone(&self) -> (copy: Self)
        ensures
            copy@ == self@,
    {
        SymKeyEncryptedSessionKey {
            packet_version: self.packet_version,
            data: slice_to_vec(self.data.as_slice()),
        }
    }
}

impl SymKeyEncryptedSessionKey {
    /// Writes the packet.
    pub fn to_writer(&self, writer: &mut Vec<u8>) -> (r: Result<(), Error>)
        ensures
            packet_written(
                PacketModel::SymKeyEncryptedSessionKey(self@),
                old(writer)@,
                final(writer)@,
                r,
            ),
    {
        let ghost before = writer@;
        let r = write_frame(
            writer,
            self.packet_version,
            Tag::SymKeyEncryptedSessionKey,
            &self.data,
        );
        assert(r is Ok ==> writer@ =~= before + PacketModel::SymKeyEncryptedSessionKey(
            self@,
        ).bytes());
        r
    }
}

/// The announcement of a signature that follows the signed message.
#[derive(Debug, PartialEq, Eq)]
pub struct OnePassSignature {
    pub packet_version: Version,
    pub data: Vec<u8>,
}

impl View for OnePassSignature {
    type V = RawModel;

    open spec fn view(&self) -> RawModel {
        RawModel { packet_version: self.packet_version, data: self.data@ }
    }
}

impl Clone for OnePassSignature {
    fn clone(&self) -> (copy: Self)
        ensures
            copy@ == self@,
    {
        OnePassSignature {
            packet_version: self.packet_version,
            data: slice_to_vec(self.data.as_slice()),
        }
    }
}

impl OnePassSignature {
    /// Writes the packet.
    pub fn to_writer(&self, writer: &mut Vec<u8>) -> (r: Result<(), Error>)
        ensures
            packet_written(PacketModel::OnePassSignature(self@), old(writer)@, final(writer)@, r),
    {
        let ghost before = writer@;
        let r = write_frame(writer, self.packet_version, Tag::OnePassSignature, &self.data);
        assert(r is Ok ==> writer@ =~= before + PacketModel::OnePassSignature(self@).bytes());
        r
    }
}

/// A packet whose content is compressed.
#[derive(Debug, PartialEq, Eq)]
pub struct CompressedData {
    pub packet_version: Version,
    pub algorithm: CompressionAlgorithm,
    pub data: Vec<u8>,
}

impl View for CompressedData {
    type V = CompressedModel;

    open spec fn view(&self) -> CompressedModel {
        CompressedModel {
            packet_version: self.packet_version,
            algorithm: self.algorithm,
            data: self.data@,
        }
    }
}

impl Clone for CompressedData {
    fn clone(&self) -> (copy: Self)
        ensures
            copy@ == self@,
    {
        CompressedData {
            packet_version: self.packet_version,
            algorithm: self.algorithm,
            data: slice_to_vec(self.data.as_slice()),
        }
    }
}

impl CompressedData {
    /// A packet around data that the given algorithm compressed.
    pub fn from_compressed(algorithm: CompressionAlgorithm, data: Vec<u8>) -> (packet: Self)
        ensures
            packet@ == (CompressedModel { packet_version: Version::New, algorithm, data: data@ }),
    {
        CompressedData { packet_version: Version::New, algorithm, data }
    }

    /// Writes the packet.
    pub fn to_writer(&self, writer: &mut Vec<u8>) -> (r: Result<(), Error>)
        ensures
            packet_written(PacketModel::CompressedData(self@), old(writer)@, final(writer)@, r),
    {
        let mut body: Vec<u8> = Vec::new();
        body.push(self.algorithm.code());
        body.extend_from_slice(self.data.as_slice());
        assert(body@ =~= PacketModel::CompressedData(self@).body());
        let ghost before = writer@;
        let r = write_frame(writer, self.packet_version, Tag::CompressedData, &body);
        assert(r is Ok ==> writer@ =~= before + PacketModel::CompressedData(self@).bytes());
        r
    }
}

/// Encrypted data.
#[derive(Debug, PartialEq, Eq)]
pub struct SymEncryptedData {
    pub packet_version: Version,
    pub data: Vec<u8>,
}

impl View for SymEncryptedData {
    type V = RawModel;

    open spec fn view(&self) -> RawModel {
        RawModel { packet_version: self.packet_version, data: self.data@ }
    }
}

impl Clone for SymEncryptedData {
    fn clone(&self) -> (copy: Self)
        ensures
            copy@ == self@,
    {
        SymEncryptedData {
            packet_version: self.packet_version,
            data: slice_to_vec(self.data.as_slice()),
        }
    }
}

impl SymEncryptedData {
    /// The encrypted octets.
    pub fn data(&self) -> (data: &[u8])
        ensures
            data@ == self@.data,
    {
        self.data.as_slice()
    }

    /// Writes the packet.
    pub fn to_writer(&self, writer: &mut Vec<u8>) -> (r: Result<(), Error>)
        ensures
            packet_written(PacketModel::SymEncryptedData(self@), old(writer)@, final(writer)@, r),
    {
        let ghost before = writer@;
        let r = write_frame(writer, self.packet_version, Tag::SymEncryptedData, &self.data);
        assert(r is Ok ==> writer@ =~= before + PacketModel::SymEncryptedData(self@).bytes());
        r
    }
}

/// A packet that means nothing and is passed over.
#[derive(Debug, PartialEq, Eq)]
pub struct Marker {
    pub packet_version: Version,
    pub data: Vec<u8>,
}

impl View for Marker {
    type V = RawModel;

    open spec fn view(&self) -> RawModel {
        RawModel { packet_version: self.packet_version, data: self.data@ }
    }
}

impl Clone for Marker {
    fn clone(&self) -> (copy: Self)
        ensures
            copy@ == self@,
    {
        Marker {
            packet_version: self.packet_version,
            data: slice_to_vec(self.data.as_slice()),
        }
    }
}

/// The content of a message, with the name and the date that go with it.
#[derive(Debug, PartialEq, Eq)]
pub struct LiteralData {
    pub packet_version: Version,
    pub mode: DataMode,
    pub file_name: Vec<u8>,
    /// Seconds since 1970; zero where no date is given.
    pub created: u32,
    pub data: Vec<u8>,
}

impl View for LiteralData {
    type V = LiteralModel;

    open spec fn view(&self) -> LiteralModel {
        LiteralModel {
            packet_version: self.packet_version,
            mode: self.mode,
            file_name: self.file_name@,
            created: self.created,
            data: self.data@,
        }
    }
}

impl Clone for LiteralData {
    fn clone(&self) -> (copy: Self)
        ensures
            copy@ == self@,
    {
        LiteralData {
            packet_version: self.packet_version,
            mode: self.mode,
            file_name: slice_to_vec(self.file_name.as_slice()),
            created: self.created,
            data: slice_to_vec(self.data.as_slice()),
        }
    }
}

impl LiteralData {
    /// Text as literal data, without a date.
    pub fn from_str(file_name: &str, data: &str) -> (packet: Self)
        ensures
            packet@ == (LiteralModel {
                packet_version: Version::New,
                mode: DataMode::Utf8,
                file_name: vstd::utf8::encode_utf8(file_name@),
                created: 0,
                data: vstd::utf8::encode_utf8(data@),
            }),
    {
        LiteralData {
            packet_version: Version::New,
            mode: DataMode::Utf8,
            file_name: slice_to_vec(file_name.as_bytes()),
            created: 0,
            data: slice_to_vec(data.as_bytes()),
        }
    }

    /// The content.
    pub fn data(&self) -> (data: &[u8])
        ensures
            data@ == self@.data,
    {
        self.data.as_slice()
    }

    /// Writes the packet.
    pub fn to_writer(&self, writer: &mut Vec<u8>) -> (r: Result<(), Error>)
        ensures
            packet_written(PacketModel::LiteralData(self@), old(writer)@, final(writer)@, r),
    {
        if self.file_name.len() > 255 {
            return Err(Error::FileNameTooLong);
        }
        let mut body: Vec<u8> = Vec::new();
        body.push(self.mode.code());
        body.push(self.file_name.len() as u8);
        body.extend_from_slice(self.file_name.as_slice());
        push_be(&mut body, self.created as u64, 4);
        body.extend_from_slice(self.data.as_slice());
        assert(body@ =~= PacketModel::LiteralData(self@).body());
        let ghost before = writer@;
        let r = write_frame(writer, self.packet_version, Tag::LiteralData, &body);
        assert(r is Ok ==> writer@ =~= before + PacketModel::LiteralData(self@).bytes());
        r
    }
}

/// Encrypted data, protected against modification.
#[derive(Debug, PartialEq, Eq)]
pub struct SymEncryptedProtectedData {
    pub packet_version: Version,
    pub data: Vec<u8>,
}

impl View for SymEncryptedProtectedData {
    type V = RawModel;

    open spec fn view(&self) -> RawModel {
        RawModel { packet_version: self.packet_version, data: self.data@ }
    }
}

impl Clone for SymEncryptedProtectedData {
    fn clone(&self) -> (copy: Self)
        ensures
            copy@ == self@,
    {
        SymEncryptedProtectedData {
            packet_version: self.packet_version,
            data: slice_to_vec(self.data.as_slice()),
        }
    }
}

impl SymEncryptedProtectedData {
    /// The encrypted octets.
    pub fn data(&self) -> (data: &[u8])
        ensures
            data@ == self@.data,
    {
        self.data.as_slice()
    }

    /// Writes the packet.
    pub fn to_writer(&self, writer: &mut Vec<u8>) -> (r: Result<(), Error>)
        ensures
            packet_written(
                PacketModel::SymEncryptedProtectedData(self@),
                old(writer)@,
                final(writer)@,
                r,
            ),
    {
        let mut body: Vec<u8> = Vec::new();
        body.push(1);
        body.extend_from_slice(self.data.as_slice());
        assert(body@ =~= PacketModel::SymEncryptedProtectedData(self@).body());
        let ghost before = writer@;
        let r = write_frame(writer, self.packet_version, Tag::SymEncryptedProtectedData, &body);
        assert(r is Ok ==> writer@ =~= before + PacketModel::SymEncryptedProtectedData(
            self@,
        ).bytes());
        r
    }
}

/// A packet of any kind that a message can hold.
#[derive(Debug, PartialEq, Eq)]
pub enum Packet {
    PublicKeyEncryptedSessionKey(PublicKeyEncryptedSessionKey),
    Signature(Signature),
    SymKeyEncryptedSessionKey(SymKeyEncryptedSessionKey),
    OnePassSignature(OnePassSignature),
    CompressedData(CompressedData),
    SymEncryptedData(SymEncryptedData),
    Marker(Marker),
    LiteralData(LiteralData),
    SymEncryptedProtectedData(SymEncryptedProtectedData),
}

impl View for Packet {
    type V = PacketModel;

    open spec fn view(&self) -> PacketModel {
        match self {
            Packet::PublicKeyEncryptedSessionKey(p) => PacketModel::PublicKeyEncryptedSessionKey(
                p@,
            ),
            Packet::Signature(p) => PacketModel::Signature(p@),
            Packet::SymKeyEncryptedSessionKey(p) => PacketModel::SymKeyEncryptedSessionKey(p@),
            Packet::OnePassSignature(p) => PacketModel::OnePassSignature(p@),
            Packet::CompressedData(p) => PacketModel::CompressedData(p@),
            Packet::SymEncryptedData(p) => PacketModel::SymEncryptedData(p@),
            Packet::Marker(p) => PacketModel::Marker(p@),
            Packet::LiteralData(p) => PacketModel::LiteralData(p@),
            Packet::SymEncryptedProtectedData(p) => PacketModel::SymEncryptedProtectedData(p@),
        }
    }
}

impl Clone for Packet {
    fn clone(&self) -> (copy: Self)
        ensures
            copy@ == self@,
    {
        match self {
            Packet::PublicKeyEncryptedSessionKey(p) => Packet::PublicKeyEncryptedSessionKey(p.clone()),
            Packet::Signature(p) => Packet::Signature(p.clone()),
            Packet::SymKeyEncryptedSessionKey(p) => Packet::SymKeyEncryptedSessionKey(p.clone()),
            Packet::OnePassSignature(p) => Packet::OnePassSignature(p.clone()),
            Packet::CompressedData(p) => Packet::CompressedData(p.clone()),
            Packet::SymEncryptedData(p) => Packet::SymEncryptedData(p.clone()),
            Packet::Marker(p) => Packet::Marker(p.clone()),
            Packet::LiteralData(p) => Packet::LiteralData(p.clone()),
            Packet::SymEncryptedProtectedData(p) => Packet::SymEncryptedProtectedData(p.clone()),
        }
    }
}

impl Packet {
    /// The kind of the packet.
    pub fn tag(&self) -> (tag: Tag)
        ensures
            tag == self@.tag(),
    {
        match self {
            Packet::PublicKeyEncryptedSessionKey(_) => Tag::PublicKeyEncryptedSessionKey,
            Packet::Signature(_) => Tag::Signature,
            Packet::SymKeyEncryptedSessionKey(_) => Tag::SymKeyEncryptedSessionKey,
            Packet::OnePassSignature(_) => Tag::OnePassSignature,
            Packet::CompressedData(_) => Tag::CompressedData,
            Packet::SymEncryptedData(_) => Tag::SymEncryptedData,
            Packet::Marker(_) => Tag::Marker,
            Packet::LiteralData(_) => Tag::LiteralData,
            Packet::SymEncryptedProtectedData(_) => Tag::SymEncryptedProtectedData,
        }
    }
}

fn tail(body: &Vec<u8>, from: usize) -> (t: Vec<u8>)
    requires
        from <= body@.len(),
    ensures
        t@ == body@.skip(from as int),
{
    let t = slice_to_vec(slice_subrange(body.as_slice(), from, body.len()));
    assert(t@ =~= body@.skip(from as int));
    t
}

fn read_pkesk(version: Version, body: &Vec<u8>) -> (r: Result<PublicKeyEncryptedSessionKey, Error>)
    ensures
        match packet_of(version, Tag::PublicKeyEncryptedSessionKey.code(), body@) {
            Ok(p) => r matches Ok(x) && PacketModel::PublicKeyEncryptedSessionKey(x@) == p,
            Err(e) => r == Err::<PublicKeyEncryptedSessionKey, Error>(e),
        },
{
    if body.len() >= 10 && body[0] == 3 {
        let id = read_be(slice_subrange(body.as_slice(), 1, 9));
        Ok(
            PublicKeyEncryptedSessionKey {
                packet_version: version,
                id: KeyId(id),
                algorithm: body[9],
                mpis: tail(body, 10),
            },
        )
    } else {
        Err(Error::InvalidBody)
    }
}

fn read_compressed(version: Version, body: &Vec<u8>) -> (r: Result<CompressedData, Error>)
    ensures
        match packet_of(version, Tag::CompressedData.code(), body@) {
            Ok(p) => r matches Ok(x) && PacketModel::CompressedData(x@) == p,
            Err(e) => r == Err::<CompressedData, Error>(e),
        },
{
    if body.len() < 1 {
        return Err(Error::InvalidBody);
    }
    match CompressionAlgorithm::from_code(body[0]) {
        Some(algorithm) => Ok(
            CompressedData { packet_version: version, algorithm, data: tail(body, 1) },
        ),
        None => Err(Error::InvalidBody),
    }
}

fn read_literal(version: Version, body: &Vec<u8>) -> (r: Result<LiteralData, Error>)
    ensures
        match packet_of(version, Tag::LiteralData.code(), body@) {
            Ok(p) => r matches Ok(x) && PacketModel::LiteralData(x@) == p,
            Err(e) => r == Err::<LiteralData, Error>(e),
        },
{
    if body.len() < 2 {
        return Err(Error::InvalidBody);
    }
    let n = body[1] as usize;
    match DataMode::from_code(body[0]) {
        Some(mode) => {
            if body.len() < 6 + n {
                return Err(Error::InvalidBody);
            }
            let date = slice_subrange(body.as_slice(), 2 + n, 6 + n);
            let created = read_be(date);
            proof {
                lemma_be_bytes_of_value(date@);
                lemma_pow256_values();
            }
            Ok(
                LiteralData {
                    packet_version: version,
                    mode,
                    file_name: slice_to_vec(slice_subrange(body.as_slice(), 2, 2 + n)),
                    created: created as u32,
                    data: tail(body, 6 + n),
                },
            )
        },
        None => Err(Error::InvalidBody),
    }
}

fn read_body(version: Version, code: u8, body: Vec<u8>) -> (r: Result<Packet, Error>)
    ensures
        match packet_of(version, code, body@) {
            Ok(p) => r matches Ok(x) && x@ == p,
            Err(e) => r == Err::<Packet, Error>(e),
        },
{
    match Tag::from_code(code) {
        None => {
            assert(code != Tag::PublicKeyEncryptedSessionKey.code());
            assert(code != Tag::Signature.code());
            assert(code != Tag::SymKeyEncryptedSessionKey.code());
            assert(code != Tag::OnePassSignature.code());
            assert(code != Tag::CompressedData.code());
            assert(code != Tag::SymEncryptedData.code());
            assert(code != Tag::Marker.code());
            assert(code != Tag::LiteralData.code());
            assert(code != Tag::SymEncryptedProtectedData.code());
            Err(Error::UnexpectedPacket(code))
        },
        Some(Tag::PublicKeyEncryptedSessionKey) => match read_pkesk(version, &body) {
            Ok(p) => Ok(Packet::PublicKeyEncryptedSessionKey(p)),
            Err(e) => Err(e),
        },
        Some(Tag::Signature) => Ok(
            Packet::Signature(Signature { packet_version: version, data: body }),
        ),
        Some(Tag::SymKeyEncryptedSessionKey) => Ok(
            Packet::SymKeyEncryptedSessionKey(
                SymKeyEncryptedSessionKey { packet_version: version, data: body },
            ),
        ),
        Some(Tag::OnePassSignature) => Ok(
            Packet::OnePassSignature(OnePassSignature { packet_version: version, data: body }),
        ),
        Some(Tag::CompressedData) => match read_compressed(version, &body) {
            Ok(p) => Ok(Packet::CompressedData(p)),
            Err(e) => Err(e),
        },
        Some(Tag::SymEncryptedData) => Ok(
            Packet::SymEncryptedData(SymEncryptedData { packet_version: version, data: body }),
        ),
        Some(Tag::Marker) => Ok(Packet::Marker(Marker { packet_version: version, data: body })),
        Some(Tag::LiteralData) => match read_literal(version, &body) {
            Ok(p) => Ok(Packet::LiteralData(p)),
            Err(e) => Err(e),
        },
        Some(Tag::SymEncryptedProtectedData) => {
            if body.len() >= 1 && body[0] == 1 {
                Ok(
                    Packet::SymEncryptedProtectedData(
                        SymEncryptedProtectedData {
                            packet_version: version,
                            data: tail(&body, 1),
                        },
                    ),
                )
            } else {
                Err(Error::InvalidBody)
            }
        },
    }
}

/// Reads the packet at the head of `s`, and says what comes after it.
pub fn read_packet<'a>(s: &'a [u8]) -> (r: Result<(Packet, &'a [u8]), Error>)
    ensures
        match packet_at(s@) {
            Ok((p, rest)) => r matches Ok((x, t)) && x@ == p && t@ == rest && rest.len() < s@.len(),
            Err(e) => r == Err::<(Packet, &'a [u8]), Error>(e),
        },
{
    proof {
        reveal(packet_at);
        lemma_frame_consumes(s@);
    }
    match read_frame(s) {
        Ok(frame) => {
            let rest = frame.rest;
            match read_body(frame.version, frame.code, frame.body) {
                Ok(p) => Ok((p, rest)),
                Err(e) => Err(e),
            }
        },
        Err(e) => Err(e),
    }
}

/// Reading a packet leaves less than there was.
pub proof fn lemma_packet_consumes(s: Seq<u8>)
    ensures
        packet_at(s) matches Ok((_, rest)) ==> rest.len() < s.len(),
{
    reveal(packet_at);
    lemma_frame_consumes(s);
}

proof fn lemma_pkesk_round_trip(k: PkeskModel)
    ensures
        packet_of(
            k.packet_version,
            Tag::PublicKeyEncryptedSessionKey.code(),
            PacketModel::PublicKeyEncryptedSessionKey(k).body(),
        ) == Ok::<PacketModel, Error>(PacketModel::PublicKeyEncryptedSessionKey(k)),
{
    let body = PacketModel::PublicKeyEncryptedSessionKey(k).body();
    lemma_pow256_values();
    lemma_be_value_of_bytes(k.id.0 as nat, 8);
    assert(body.len() == 10 + k.mpis.len());
    assert(body.subrange(1, 9) =~= be_bytes(k.id.0 as nat, 8));
    assert(body.skip(10) =~= k.mpis);
}

proof fn lemma_literal_round_trip(l: LiteralModel)
    requires
        l.file_name.len() <= 255,
    ensures
        packet_of(
            l.packet_version,
            Tag::LiteralData.code(),
            PacketModel::LiteralData(l).body(),
        ) == Ok::<PacketModel, Error>(PacketModel::LiteralData(l)),
{
    let body = PacketModel::LiteralData(l).body();
    lemma_pow256_values();
    lemma_be_value_of_bytes(l.created as nat, 4);
    let n = l.file_name.len() as int;
    assert(body.len() == 6 + n + l.data.len());
    assert(body[0] == l.mode.code());
    assert(body[1] == n);
    assert(body.subrange(2, 2 + n) =~= l.file_name);
    assert(body.subrange(2 + n, 6 + n) =~= be_bytes(l.created as nat, 4));
    assert(body.skip(6 + n) =~= l.data);
}

/// What was written is read back: a packet that can be written is found again in
/// its octets, whatever comes after them.
pub proof fn law_packet_round_trip(p: PacketModel, rest: Seq<u8>)
    requires
        p.error() is None,
    ensures
        packet_at(p.bytes() + rest) == Ok::<(PacketModel, Seq<u8>), Error>((p, rest)),
{
    assert(packet_of(p.version(), p.tag().code(), p.body()) == Ok::<PacketModel, Error>(p)) by {
        match p {
            PacketModel::PublicKeyEncryptedSessionKey(k) => lemma_pkesk_round_trip(k),
            PacketModel::LiteralData(l) => lemma_literal_round_trip(l),
            PacketModel::CompressedData(c) => {
                assert(p.body()[0] == c.algorithm.code());
                assert(p.body().skip(1) =~= c.data);
            },
            PacketModel::SymEncryptedProtectedData(d) => {
                assert(p.body().skip(1) =~= d.data);
            },
            _ => {},
        }
    }
    lemma_frame_round_trip(p.version(), p.tag(), p.body(), rest);
    reveal(packet_at);
}

} // verus!
