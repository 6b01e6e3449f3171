//! The small values that packets are made of.
use vstd::prelude::*;

verus! {

/// The identifier of a key: the eight octets of its fingerprint that packets name
/// it by, as one big-endian number.
#[derive(Clone, Copy, Debug, PartialEq, Eq, Structural)]
pub struct KeyId(pub u64);

/// Which of the two header formats a packet is written in.
#[derive(Clone, Copy, Debug, PartialEq, Eq, Structural)]
pub enum Version {
    Old,
    New,
}

/// What kind of packet a packet is.
#[derive(Clone, Copy, Debug, PartialEq, Eq, Structural)]
pub enum Tag {
    PublicKeyEncryptedSessionKey,
    Signature,
    SymKeyEncryptedSessionKey,
    OnePassSignature,
    CompressedData,
    SymEncryptedData,
    Marker,
    LiteralData,
    SymEncryptedProtectedData,
}

impl Tag {
    /// The number of the tag in a packet header.
    pub open spec fn spec_code(self) -> u8 {
        match self {
            Tag::PublicKeyEncryptedSessionKey => 1,
            Tag::Signature => 2,
            Tag::SymKeyEncryptedSessionKey => 3,
            Tag::OnePassSignature => 4,
            Tag::CompressedData => 8,
            Tag::SymEncryptedData => 9,
            Tag::Marker => 10,
            Tag::LiteralData => 11,
            Tag::SymEncryptedProtectedData => 18,
        }
    }

    /// The number of the tag in a packet header.
    #[verifier::when_used_as_spec(spec_code)]
    pub fn code(self) -> (code: u8)
        ensures
            code == self.spec_code(),
    {
        match self {
            Tag::PublicKeyEncryptedSessionKey => 1,
            Tag::Signature => 2,
            Tag::SymKeyEncryptedSessionKey => 3,
            Tag::OnePassSignature => 4,
            Tag::CompressedData => 8,
            Tag::SymEncryptedData => 9,
            Tag::Marker => 10,
            Tag::LiteralData => 11,
            Tag::SymEncryptedProtectedData => 18,
        }
    }

    /// The tag with a given number, where a message can hold such a packet.
    pub fn from_code(code: u8) -> (tag: Option<Tag>)
        ensures
            match tag {
                Some(t) => t.code() == code,
                None => forall|t: Tag| t.code() != code,
            },
    {
        match code {
            1 => Some(Tag::PublicKeyEncryptedSessionKey),
            2 => Some(Tag::Signature),
            3 => Some(Tag::SymKeyEncryptedSessionKey),
            4 => Some(Tag::OnePassSignature),
            8 => Some(Tag::CompressedData),
            9 => Some(Tag::SymEncryptedData),
            10 => Some(Tag::Marker),
            11 => Some(Tag::LiteralData),
            18 => Some(Tag::SymEncryptedProtectedData),
            _ => None,
        }
    }
}

/// How the content of a compressed packet is compressed.
#[derive(Clone, Copy, Debug, PartialEq, Eq, Structural)]
pub enum CompressionAlgorithm {
    Uncompressed,
    ZIP,
    ZLIB,
    BZip2,
    Private10,
}

impl CompressionAlgorithm {
    /// The number of the algorithm in a compressed packet.
    pub open spec fn spec_code(self) -> u8 {
        match self {
            CompressionAlgorithm::Uncompressed => 0,
            CompressionAlgorithm::ZIP => 1,
            CompressionAlgorithm::ZLIB => 2,
            CompressionAlgorithm::BZip2 => 3,
            CompressionAlgorithm::Private10 => 110,
        }
    }

    /// The number of the algorithm in a compressed packet.
    #[verifier::when_used_as_spec(spec_code)]
    pub fn code(self) -> (code: u8)
        ensures
            code == self.spec_code(),
    {
        match self {
            CompressionAlgorithm::Uncompressed => 0,
            CompressionAlgorithm::ZIP => 1,
            CompressionAlgorithm::ZLIB => 2,
            CompressionAlgorithm::BZip2 => 3,
            CompressionAlgorithm::Private10 => 110,
        }
    }

    /// The algorithm with a given number, where there is one.
    pub open spec fn spec_from_code(code: u8) -> Option<CompressionAlgorithm> {
        if exists|a: CompressionAlgorithm| a.code() == code {
            Some(choose|a: CompressionAlgorithm| a.code() == code)
        } else {
            None
        }
    }

    /// The algorithm with a given number, where there is one.
    pub fn from_code(code: u8) -> (alg: Option<CompressionAlgorithm>)
        ensures
            alg == CompressionAlgorithm::spec_from_code(code),
    {
        let alg = match code {
            0 => Some(CompressionAlgorithm::Uncompressed),
            1 => Some(CompressionAlgorithm::ZIP),
            2 => Some(CompressionAlgorithm::ZLIB),
            3 => Some(CompressionAlgorithm::BZip2),
            110 => Some(CompressionAlgorithm::Private10),
            _ => None,
        };
        assert(alg matches Some(a) ==> a.code() == code);
        alg
    }
}

/// How the octets of literal data are to be read.
#[derive(Clone, Copy, Debug, PartialEq, Eq, Structural)]
pub enum DataMode {
    Binary,
    Text,
    Utf8,
    Local,
    Mime,
}

impl DataMode {
    /// The octet that stands for the mode: a letter.
    pub open spec fn spec_code(self) -> u8 {
        match self {
            DataMode::Binary => 98,
            DataMode::Text => 116,
            DataMode::Utf8 => 117,
            DataMode::Local => 108,
            DataMode::Mime => 109,
        }
    }

    /// The octet that stands for the mode: a letter.
    #[verifier::when_used_as_spec(spec_code)]
    pub fn code(self) -> (code: u8)
        ensures
            code == self.spec_code(),
    {
        match self {
            DataMode::Binary => 98,
            DataMode::Text => 116,
            DataMode::Utf8 => 117,
            DataMode::Local => 108,
            DataMode::Mime => 109,
        }
    }

    /// The mode that an octet stands for, where there is one.
    pub open spec fn spec_from_code(code: u8) -> Option<DataMode> {
        if exists|m: DataMode| m.code() == code {
            Some(choose|m: DataMode| m.code() == code)
        } else {
            None
        }
    }

    /// The mode that an octet stands for, where there is one.
    pub fn from_code(code: u8) -> (mode: Option<DataMode>)
        ensures
            mode == DataMode::spec_from_code(code),
    {
        let mode = match code {
            98 => Some(DataMode::Binary),
            116 => Some(DataMode::Text),
            117 => Some(DataMode::Utf8),
            108 => Some(DataMode::Local),
            109 => Some(DataMode::Mime),
            _ => None,
        };
        assert(mode matches Some(m) ==> m.code() == code);
        mode
    }
}

} // verus!
