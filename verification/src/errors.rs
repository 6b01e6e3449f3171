//! The errors of this library.
use crate::message::{Message, MessageModel};
use crate::packet::{Packet, PacketModel};
use vstd::prelude::*;
use vstd::string::StringExecFns;

verus! {

/// Why an operation on a message failed.
#[derive(Clone, Debug, PartialEq, Eq)]
pub enum Error {
    /// The message is encrypted to none of the keys that were offered.
    MissingKey,
    /// The message holds no encrypted data.
    NotEncrypted,
    /// None of the matching keys could decrypt its session key.
    SessionKeyNotDecrypted,
    /// The matching keys decrypted to different session keys.
    InconsistentSessionKeys,
    /// The message carries no session key that a password encrypts.
    NotPasswordProtected,
    /// BZip2 compression is not implemented.
    UnimplementedBZip2,
    /// The private compression algorithm has no defined meaning.
    UnsupportedPrivate10,
    /// The signed message, which is given, is not literal data: verifying it is not
    /// implemented.
    UnimplementedVerify(Box<Message>),
    /// The signature stands alone: verifying it without its message is not implemented.
    UnimplementedDetached,
    /// A packet of another kind than the one asked for; it is given.
    InvalidPacketType(Box<Packet>),
    /// The compressor failed.
    Compression,
    /// The compressed data is corrupt or incomplete.
    Decompression,
    /// The input ends where more was expected.
    UnexpectedEof,
    /// The first octet of a packet does not have its highest bit set.
    InvalidHeader,
    /// A packet that does not belong where it stands; its tag is given.
    UnexpectedPacket(u8),
    /// The body of a packet does not have the shape that its tag demands.
    InvalidBody,
    /// Encrypted session keys with no encrypted data after them.
    MissingEncryptedData,
    /// The file name of literal data is longer than its length octet can tell.
    FileNameTooLong,
    /// The packet's tag cannot be written in the old header format.
    TagTooLarge,
    /// The packet's body is longer than a packet header can tell.
    PacketTooLong,
    /// The armored text is not UTF-8.
    InvalidUtf8,
    /// The text is not an armored message.
    InvalidArmor,
    /// The checksum of armored text does not fit its content.
    InvalidChecksum,
    /// What the caller's own functions failed with.
    Other(String),
}

/// The text that `format!` makes of a packet with `{:?}`.
pub uninterp spec fn packet_text(p: PacketModel) -> Seq<char>;

/// The text that `format!` makes of a message with `{:?}`.
pub uninterp spec fn message_text(m: MessageModel) -> Seq<char>;

/// Calls `format!` with `{:?}`, which writes the fields of the packet as `Debug` shows
/// them. Claimed: the text depends on what the packet holds alone.
#[verifier::external_body]
fn show_packet(p: &Packet) -> (text: String)
    ensures
        text@ == packet_text(p@),
{
    format!("{:?}", p)
}

/// Calls `format!` with `{:?}`, which writes the fields of the message as `Debug` shows
/// them. Claimed: the text depends on what the message holds alone.
#[verifier::external_body]
fn show_message(m: &Message) -> (text: String)
    ensures
        text@ == message_text(m@),
{
    format!("{:?}", m)
}

impl Error {
    /// The text that `message` gives for an error.
    pub open spec fn text(&self) -> Seq<char> {
        match self {
            Error::MissingKey => "missing key"@,
            Error::NotEncrypted => "not encrypted"@,
            Error::SessionKeyNotDecrypted => "failed to decrypt session key"@,
            Error::InconsistentSessionKeys =>
                "found inconsistent session keys, possible message corruption"@,
            Error::NotPasswordProtected => "message is not password protected"@,
            Error::UnimplementedBZip2 => "BZip2"@,
            Error::UnsupportedPrivate10 => "Private10 should not be used"@,
            Error::UnimplementedVerify(m) => "verify for "@ + message_text(m@),
            Error::UnimplementedDetached => "no message, what to do?"@,
            Error::InvalidPacketType(p) => "not a valid edata packet: "@ + packet_text(p@),
            Error::Compression => "compression failed"@,
            Error::Decompression => "corrupt compressed data"@,
            Error::UnexpectedEof => "unexpected end of input"@,
            Error::InvalidHeader => "invalid packet header"@,
            Error::UnexpectedPacket(_) => "unexpected packet"@,
            Error::InvalidBody => "invalid packet body"@,
            Error::MissingEncryptedData => "missing encrypted data"@,
            Error::FileNameTooLong => "file name too long"@,
            Error::TagTooLarge => "tag too large for the old packet format"@,
            Error::PacketTooLong => "packet too long"@,
            Error::InvalidUtf8 => "invalid utf-8"@,
            Error::InvalidArmor => "invalid armor"@,
            Error::InvalidChecksum => "invalid checksum"@,
            Error::Other(s) => s@,
        }
    }

    /// Says in words what went wrong.
    pub fn message(&self) -> (text: String)
        ensures
            text@ == self.text(),
    {
        match self {
            Error::MissingKey => "missing key".to_string(),
            Error::NotEncrypted => "not encrypted".to_string(),
            Error::SessionKeyNotDecrypted => "failed to decrypt session key".to_string(),
            Error::InconsistentSessionKeys =>
                "found inconsistent session keys, possible message corruption".to_string(),
            Error::NotPasswordProtected => "message is not password protected".to_string(),
            Error::UnimplementedBZip2 => "BZip2".to_string(),
            Error::UnsupportedPrivate10 => "Private10 should not be used".to_string(),
            Error::UnimplementedVerify(m) => "verify for ".to_string().concat(
                show_message(m).as_str(),
            ),
            Error::UnimplementedDetached => "no message, what to do?".to_string(),
            Error::InvalidPacketType(p) => "not a valid edata packet: ".to_string().concat(
                show_packet(p).as_str(),
            ),
            Error::Compression => "compression failed".to_string(),
            Error::Decompression => "corrupt compressed data".to_string(),
            Error::UnexpectedEof => "unexpected end of input".to_string(),
            Error::InvalidHeader => "invalid packet header".to_string(),
            Error::UnexpectedPacket(_) => "unexpected packet".to_string(),
            Error::InvalidBody => "invalid packet body".to_string(),
            Error::MissingEncryptedData => "missing encrypted data".to_string(),
            Error::FileNameTooLong => "file name too long".to_string(),
            Error::TagTooLarge => "tag too large for the old packet format".to_string(),
            Error::PacketTooLong => "packet too long".to_string(),
            Error::InvalidUtf8 => "invalid utf-8".to_string(),
            Error::InvalidArmor => "invalid armor".to_string(),
            Error::InvalidChecksum => "invalid checksum".to_string(),
            Error::Other(s) => s.clone(),
        }
    }
}

/// The words of the errors that messages are refused with. Those about a packet or a
/// message go on with what it is.
pub proof fn law_error_words(m: Box<Message>, p: Box<Packet>, s: String)
    ensures
        Error::NotEncrypted.text() == "not encrypted"@,
        Error::SessionKeyNotDecrypted.text() == "failed to decrypt session key"@,
        Error::InconsistentSessionKeys.text()
            == "found inconsistent session keys, possible message corruption"@,
        Error::NotPasswordProtected.text() == "message is not password protected"@,
        Error::UnimplementedBZip2.text() == "BZip2"@,
        Error::UnsupportedPrivate10.text() == "Private10 should not be used"@,
        Error::UnimplementedVerify(m).text() == "verify for "@ + message_text(m@),
        Error::UnimplementedDetached.text() == "no message, what to do?"@,
        Error::InvalidPacketType(p).text() == "not a valid edata packet: "@ + packet_text(p@),
        Error::Other(s).text() == s@,
{
}

} // verus!
