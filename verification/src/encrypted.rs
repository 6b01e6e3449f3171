//! The two parts of an encrypted message: its session keys and its data.
use crate::errors::Error;
use crate::packet::{packet_written, Packet, PacketModel};
use crate::packet::{
    PublicKeyEncryptedSessionKey, SymEncryptedData, SymEncryptedProtectedData,
    SymKeyEncryptedSessionKey,
};
use crate::types::Tag;
use vstd::prelude::*;
use vstd::std_specs::convert::{FromSpec, TryFromSpec};

verus! {

/// An encrypted session key: to a public key, or under a password.
#[derive(Debug, PartialEq, Eq)]
pub enum Esk {
    PublicKeyEncryptedSessionKey(PublicKeyEncryptedSessionKey),
    SymKeyEncryptedSessionKey(SymKeyEncryptedSessionKey),
}

impl View for Esk {
    type V = PacketModel;

    open spec fn view(&self) -> PacketModel {
        match self {
            Esk::PublicKeyEncryptedSessionKey(k) => PacketModel::PublicKeyEncryptedSessionKey(k@),
            Esk::SymKeyEncryptedSessionKey(k) => PacketModel::SymKeyEncryptedSessionKey(k@),
        }
    }
}

impl Clone for Esk {
    fn clone(&self) -> (copy: Self)
        ensures
            copy@ == self@,
    {
        match self {
            Esk::PublicKeyEncryptedSessionKey(k) => Esk::PublicKeyEncryptedSessionKey(k.clone()),
            Esk::SymKeyEncryptedSessionKey(k) => Esk::SymKeyEncryptedSessionKey(k.clone()),
        }
    }
}

/// Whether a packet holds an encrypted session key.
pub open spec fn is_esk(p: PacketModel) -> bool {
    p is PublicKeyEncryptedSessionKey || p is SymKeyEncryptedSessionKey
}

impl Esk {
    /// Writes the packet.
    pub fn to_writer(&self, writer: &mut Vec<u8>) -> (r: Result<(), Error>)
        ensures
            packet_written(self@, old(writer)@, final(writer)@, r),
    {
        match self {
            Esk::PublicKeyEncryptedSessionKey(k) => k.to_writer(writer),
            Esk::SymKeyEncryptedSessionKey(k) => k.to_writer(writer),
        }
    }

    /// The kind of the packet.
    pub fn tag(&self) -> (tag: Tag)
        ensures
            tag == self@.tag(),
    {
        match self {
            Esk::PublicKeyEncryptedSessionKey(_) => Tag::PublicKeyEncryptedSessionKey,
            Esk::SymKeyEncryptedSessionKey(_) => Tag::SymKeyEncryptedSessionKey,
        }
    }
}

impl vstd::std_specs::convert::TryFromSpecImpl<Packet> for Esk {
    open spec fn obeys_try_from_spec() -> bool {
        true
    }

    open spec fn try_from_spec(other: Packet) -> Result<Esk, Error> {
        match other {
            Packet::PublicKeyEncryptedSessionKey(k) => Ok(Esk::PublicKeyEncryptedSessionKey(k)),
            Packet::SymKeyEncryptedSessionKey(k) => Ok(Esk::SymKeyEncryptedSessionKey(k)),
            _ => Err(Error::InvalidPacketType(Box::new(other))),
        }
    }
}

impl TryFrom<Packet> for Esk {
    type Error = Error;

    fn try_from(other: Packet) -> (r: Result<Esk, Error>) {
        match other {
            Packet::PublicKeyEncryptedSessionKey(k) => Ok(Esk::PublicKeyEncryptedSessionKey(k)),
            Packet::SymKeyEncryptedSessionKey(k) => Ok(Esk::SymKeyEncryptedSessionKey(k)),
            _ => Err(Error::InvalidPacketType(Box::new(other))),
        }
    }
}

impl vstd::std_specs::convert::FromSpecImpl<Esk> for Packet {
    open spec fn obeys_from_spec() -> bool {
        true
    }

    open spec fn from_spec(other: Esk) -> Packet {
        match other {
            Esk::PublicKeyEncryptedSessionKey(k) => Packet::PublicKeyEncryptedSessionKey(k),
            Esk::SymKeyEncryptedSessionKey(k) => Packet::SymKeyEncryptedSessionKey(k),
        }
    }
}

impl From<Esk> for Packet {
    fn from(other: Esk) -> (r: Packet) {
        match other {
            Esk::PublicKeyEncryptedSessionKey(k) => Packet::PublicKeyEncryptedSessionKey(k),
            Esk::SymKeyEncryptedSessionKey(k) => Packet::SymKeyEncryptedSessionKey(k),
        }
    }
}

impl vstd::std_specs::convert::FromSpecImpl<PublicKeyEncryptedSessionKey> for Esk {
    open spec fn obeys_from_spec() -> bool {
        true
    }

    open spec fn from_spec(other: PublicKeyEncryptedSessionKey) -> Esk {
        Esk::PublicKeyEncryptedSessionKey(other)
    }
}

impl From<PublicKeyEncryptedSessionKey> for Esk {
    fn from(other: PublicKeyEncryptedSessionKey) -> (r: Esk) {
        Esk::PublicKeyEncryptedSessionKey(other)
    }
}

impl vstd::std_specs::convert::TryFromSpecImpl<Esk> for PublicKeyEncryptedSessionKey {
    open spec fn obeys_try_from_spec() -> bool {
        true
    }

    open spec fn try_from_spec(other: Esk) -> Result<PublicKeyEncryptedSessionKey, Error> {
        match other {
            Esk::PublicKeyEncryptedSessionKey(k) => Ok(k),
            _ => Err(Error::InvalidPacketType(Box::new(Packet::from_spec(other)))),
        }
    }
}

impl TryFrom<Esk> for PublicKeyEncryptedSessionKey {
    type Error = Error;

    fn try_from(other: Esk) -> (r: Result<PublicKeyEncryptedSessionKey, Error>) {
        match other {
            Esk::PublicKeyEncryptedSessionKey(k) => Ok(k),
            _ => Err(Error::InvalidPacketType(Box::new(Packet::from(other)))),
        }
    }
}

impl vstd::std_specs::convert::FromSpecImpl<SymKeyEncryptedSessionKey> for Esk {
    open spec fn obeys_from_spec() -> bool {
        true
    }

    open spec fn from_spec(other: SymKeyEncryptedSessionKey) -> Esk {
        Esk::SymKeyEncryptedSessionKey(other)
    }
}

impl From<SymKeyEncryptedSessionKey> for Esk {
    fn from(other: SymKeyEncryptedSessionKey) -> (r: Esk) {
        Esk::SymKeyEncryptedSessionKey(other)
    }
}

impl vstd::std_specs::convert::TryFromSpecImpl<Esk> for SymKeyEncryptedSessionKey {
    open spec fn obeys_try_from_spec() -> bool {
        true
    }

    open spec fn try_from_spec(other: Esk) -> Result<SymKeyEncryptedSessionKey, Error> {
        match other {
            Esk::SymKeyEncryptedSessionKey(k) => Ok(k),
            _ => Err(Error::InvalidPacketType(Box::new(Packet::from_spec(other)))),
        }
    }
}

impl TryFrom<Esk> for SymKeyEncryptedSessionKey {
    type Error = Error;

    fn try_from(other: Esk) -> (r: Result<SymKeyEncryptedSessionKey, Error>) {
        match other {
            Esk::SymKeyEncryptedSessionKey(k) => Ok(k),
            _ => Err(Error::InvalidPacketType(Box::new(Packet::from(other)))),
        }
    }
}

/// Encrypted data, with or without protection against modification.
#[derive(Debug, PartialEq, Eq)]
pub enum Edata {
    SymEncryptedData(SymEncryptedData),
    SymEncryptedProtectedData(SymEncryptedProtectedData),
}

impl View for Edata {
    type V = PacketModel;

    open spec fn view(&self) -> PacketModel {
        match self {
            Edata::SymEncryptedData(d) => PacketModel::SymEncryptedData(d@),
            Edata::SymEncryptedProtectedData(d) => PacketModel::SymEncryptedProtectedData(d@),
        }
    }
}

impl Clone for Edata {
    fn clone(&self) -> (copy: Self)
        ensures
            copy@ == self@,
    {
        match self {
            Edata::SymEncryptedData(k) => Edata::SymEncryptedData(k.clone()),
            Edata::SymEncryptedProtectedData(k) => Edata::SymEncryptedProtectedData(k.clone()),
        }
    }
}

/// Whether a packet holds encrypted data.
pub open spec fn is_edata(p: PacketModel) -> bool {
    p is SymEncryptedData || p is SymEncryptedProtectedData
}

/// The encrypted octets of a packet of encrypted data.
pub open spec fn encrypted_octets(p: PacketModel) -> Seq<u8> {
    match p {
        PacketModel::SymEncryptedData(d) => d.data,
        PacketModel::SymEncryptedProtectedData(d) => d.data,
        _ => Seq::empty(),
    }
}

impl Edata {
    /// Writes the packet.
    pub fn to_writer(&self, writer: &mut Vec<u8>) -> (r: Result<(), Error>)
        ensures
            packet_written(self@, old(writer)@, final(writer)@, r),
    {
        match self {
            Edata::SymEncryptedData(d) => d.to_writer(writer),
            Edata::SymEncryptedProtectedData(d) => d.to_writer(writer),
        }
    }

    /// The encrypted octets.
    pub fn data(&self) -> (data: &[u8])
        ensures
            data@ == encrypted_octets(self@),
    {
        match self {
            Edata::SymEncryptedData(d) => d.data(),
            Edata::SymEncryptedProtectedData(d) => d.data(),
        }
    }

    /// The kind of the packet.
    pub fn tag(&self) -> (tag: Tag)
        ensures
            tag == self@.tag(),
    {
        match self {
            Edata::SymEncryptedData(_) => Tag::SymEncryptedData,
            Edata::SymEncryptedProtectedData(_) => Tag::SymEncryptedProtectedData,
        }
    }
}

impl vstd::std_specs::convert::TryFromSpecImpl<Packet> for Edata {
    open spec fn obeys_try_from_spec() -> bool {
        true
    }

    open spec fn try_from_spec(other: Packet) -> Result<Edata, Error> {
        match other {
            Packet::SymEncryptedData(k) => Ok(Edata::SymEncryptedData(k)),
            Packet::SymEncryptedProtectedData(k) => Ok(Edata::SymEncryptedProtectedData(k)),
            _ => Err(Error::InvalidPacketType(Box::new(other))),
        }
    }
}

impl TryFrom<Packet> for Edata {
    type Error = Error;

    fn try_from(other: Packet) -> (r: Result<Edata, Error>) {
        match other {
            Packet::SymEncryptedData(k) => Ok(Edata::SymEncryptedData(k)),
            Packet::SymEncryptedProtectedData(k) => Ok(Edata::SymEncryptedProtectedData(k)),
            _ => Err(Error::InvalidPacketType(Box::new(other))),
        }
    }
}

impl vstd::std_specs::convert::FromSpecImpl<Edata> for Packet {
    open spec fn obeys_from_spec() -> bool {
        true
    }

    open spec fn from_spec(other: Edata) -> Packet {
        match other {
            Edata::SymEncryptedData(k) => Packet::SymEncryptedData(k),
            Edata::SymEncryptedProtectedData(k) => Packet::SymEncryptedProtectedData(k),
        }
    }
}

impl From<Edata> for Packet {
    fn from(other: Edata) -> (r: Packet) {
        match other {
            Edata::SymEncryptedData(k) => Packet::SymEncryptedData(k),
            Edata::SymEncryptedProtectedData(k) => Packet::SymEncryptedProtectedData(k),
        }
    }
}

impl vstd::std_specs::convert::FromSpecImpl<SymEncryptedData> for Edata {
    open spec fn obeys_from_spec() -> bool {
        true
    }

    open spec fn from_spec(other: SymEncryptedData) -> Edata {
        Edata::SymEncryptedData(other)
    }
}

impl From<SymEncryptedData> for Edata {
    fn from(other: SymEncryptedData) -> (r: Edata) {
        Edata::SymEncryptedData(other)
    }
}

impl vstd::std_specs::convert::TryFromSpecImpl<Edata> for SymEncryptedData {
    open spec fn obeys_try_from_spec() -> bool {
        true
    }

    open spec fn try_from_spec(other: Edata) -> Result<SymEncryptedData, Error> {
        match other {
            Edata::SymEncryptedData(k) => Ok(k),
            _ => Err(Error::InvalidPacketType(Box::new(Packet::from_spec(other)))),
        }
    }
}

impl TryFrom<Edata> for SymEncryptedData {
    type Error = Error;

    fn try_from(other: Edata) -> (r: Result<SymEncryptedData, Error>) {
        match other {
            Edata::SymEncryptedData(k) => Ok(k),
            _ => Err(Error::InvalidPacketType(Box::new(Packet::from(other)))),
        }
    }
}

impl vstd::std_specs::convert::FromSpecImpl<SymEncryptedProtectedData> for Edata {
    open spec fn obeys_from_spec() -> bool {
        true
    }

    open spec fn from_spec(other: SymEncryptedProtectedData) -> Edata {
        Edata::SymEncryptedProtectedData(other)
    }
}

impl From<SymEncryptedProtectedData> for Edata {
    fn from(other: SymEncryptedProtectedData) -> (r: Edata) {
        Edata::SymEncryptedProtectedData(other)
    }
}

impl vstd::std_specs::convert::TryFromSpecImpl<Edata> for SymEncryptedProtectedData {
    open spec fn obeys_try_from_spec() -> bool {
        true
    }

    open spec fn try_from_spec(other: Edata) -> Result<SymEncryptedProtectedData, Error> {
        match other {
            Edata::SymEncryptedProtectedData(k) => Ok(k),
            _ => Err(Error::InvalidPacketType(Box::new(Packet::from_spec(other)))),
        }
    }
}

impl TryFrom<Edata> for SymEncryptedProtectedData {
    type Error = Error;

    fn try_from(other: Edata) -> (r: Result<SymEncryptedProtectedData, Error>) {
        match other {
            Edata::SymEncryptedProtectedData(k) => Ok(k),
            _ => Err(Error::InvalidPacketType(Box::new(Packet::from(other)))),
        }
    }
}

/// Turning a session key into a packet loses nothing: it turns back into the same
/// session key, and it is not taken for encrypted data.
pub proof fn law_esk_packet_round_trip(esk: Esk)
    ensures
        <Packet as FromSpec<Esk>>::from_spec(esk)@ == esk@,
        <Esk as TryFromSpec<Packet>>::try_from_spec(<Packet as FromSpec<Esk>>::from_spec(esk))
            == Ok::<Esk, Error>(esk),
        <Edata as TryFromSpec<Packet>>::try_from_spec(<Packet as FromSpec<Esk>>::from_spec(esk))
            == Err::<Edata, Error>(
            Error::InvalidPacketType(Box::new(<Packet as FromSpec<Esk>>::from_spec(esk))),
        ),
{
}

/// Turning encrypted data into a packet loses nothing: it turns back into the same
/// data, and it is not taken for a session key.
pub proof fn law_edata_packet_round_trip(edata: Edata)
    ensures
        <Packet as FromSpec<Edata>>::from_spec(edata)@ == edata@,
        <Edata as TryFromSpec<Packet>>::try_from_spec(<Packet as FromSpec<Edata>>::from_spec(edata))
            == Ok::<Edata, Error>(edata),
        <Esk as TryFromSpec<Packet>>::try_from_spec(<Packet as FromSpec<Edata>>::from_spec(edata))
            == Err::<Esk, Error>(
            Error::InvalidPacketType(Box::new(<Packet as FromSpec<Edata>>::from_spec(edata))),
        ),
{
}

} // verus!
