//! What encrypting a message comes to, told by what the ciphers gave; and how session keys
//! and encrypted data turn into packets.
use crate::encrypted::{encrypted_octets, Edata, Esk};
use crate::encryption::{keys_tried, made_esks, sealed, sealed_to_keys, sealed_with_password};
use crate::encryption::lemma_made;
use crate::errors::Error;
use crate::message::{Message, MessageModel};
use crate::packet::{
    Packet, PacketModel, PublicKeyEncryptedSessionKey, SymEncryptedData, SymEncryptedProtectedData,
    SymKeyEncryptedSessionKey,
};
use crate::session_key::SymmetricKeyAlgorithm;
use vstd::prelude::*;
use vstd::std_specs::convert::{FromSpec, TryFromSpec};

verus! {

/// A message is sealed as what `protect` makes of all its octets, under the algorithm and
/// the session key, behind the given session keys; what cannot be written, or what
/// `protect` refuses, gives that error, and nothing else does.
pub proof fn law_sealed_as_protected<P>(
    m: MessageModel,
    esk: Seq<PacketModel>,
    alg: SymmetricKeyAlgorithm,
    session_key: &[u8],
    protect: P,
    r: Result<Message, Error>,
) where
    P: Fn(SymmetricKeyAlgorithm, &[u8], &[u8]) -> Result<SymEncryptedProtectedData, Error>,

    requires
        sealed(m, esk, alg, session_key, protect, r),
    ensures
        m.wire() matches Err(e) ==> r == Err::<Message, Error>(e),
        m.wire() matches Ok(bytes) ==> exists|
            octets: &[u8],
            data: Result<SymEncryptedProtectedData, Error>,
        |
            #![trigger call_ensures(protect, (alg, session_key, octets), data)]
            {
                &&& octets@ == bytes
                &&& call_ensures(protect, (alg, session_key, octets), data)
                &&& r is Ok <==> data is Ok
                &&& r matches Err(e) ==> data == Err::<SymEncryptedProtectedData, Error>(e)
                &&& r matches Ok(x) ==> (x@ matches MessageModel::Encrypted {
                    esk: keys,
                    edata,
                } && keys == esk && edata.len() == 1 && edata[0]
                    == PacketModel::SymEncryptedProtectedData(data->Ok_0@))
            },
{
}

/// A message is encrypted to every key that is given, or not at all: it has one packet for
/// each key, in their order, that `encrypt` made for it from the session key. An error is
/// that of the first key that fails, of writing the message, or of `protect`; where none of
/// these can fail, the message is encrypted.
pub proof fn law_sealed_to_every_key<K, E, P>(
    m: MessageModel,
    session_key: &[u8],
    alg: SymmetricKeyAlgorithm,
    pkeys: Seq<&K>,
    encrypt: E,
    protect: P,
    r: Result<Message, Error>,
) where
    E: Fn(&[u8], SymmetricKeyAlgorithm, &K) -> Result<PublicKeyEncryptedSessionKey, Error>,
    P: Fn(SymmetricKeyAlgorithm, &[u8], &[u8]) -> Result<SymEncryptedProtectedData, Error>,

    requires
        sealed_to_keys(m, session_key, alg, pkeys, encrypt, protect, r),
    ensures
        r matches Ok(x) ==> (x@ matches MessageModel::Encrypted { esk, edata } && {
            &&& edata.len() == 1
            &&& esk.len() == pkeys.len()
            &&& forall|i: int|
                0 <= i < pkeys.len() ==> made_for(
                    encrypt,
                    session_key,
                    alg,
                    pkeys[i],
                    #[trigger] esk[i],
                )
        }),
        r matches Err(e) ==> {
            ||| m.wire() == Err::<Seq<u8>, Error>(e)
            ||| exists|i: int|
                {
                    &&& 0 <= i < pkeys.len()
                    &&& #[trigger] call_ensures(encrypt, (session_key, alg, pkeys[i]), Err(e))
                    &&& forall|j: int|
                        0 <= j < i ==> serves(encrypt, session_key, alg, #[trigger] pkeys[j])
                }
            ||| exists|octets: &[u8]|
                m.wire() == Ok::<Seq<u8>, Error>(octets@) && #[trigger] call_ensures(
                    protect,
                    (alg, session_key, octets),
                    Err(e),
                )
        },
        ({
            &&& m.wire() is Ok
            &&& forall|i: int, e: Error|
                0 <= i < pkeys.len() ==> !#[trigger] call_ensures(
                    encrypt,
                    (session_key, alg, pkeys[i]),
                    Err(e),
                )
            &&& forall|octets: &[u8], e: Error| !#[trigger]
                call_ensures(protect, (alg, session_key, octets), Err(e))
        }) ==> r is Ok,
{
    if let Ok(x) = r {
        let made = lemma_made(m, session_key, alg, pkeys, encrypt, protect, x);
        law_sealed_as_protected(m, made_esks(made), alg, session_key, protect, r);
        let esk = made_esks(made);
        assert forall|i: int| 0 <= i < pkeys.len() implies made_for(
            encrypt,
            session_key,
            alg,
            pkeys[i],
            #[trigger] esk[i],
        ) by {
            let one = made[i]->Ok_0;
            assert(made[i] == Ok::<PublicKeyEncryptedSessionKey, Error>(one));
            assert(call_ensures(encrypt, (session_key, alg, pkeys[i]), Ok(one)));
        }
    } else {
        let results = choose|results: Seq<Result<PublicKeyEncryptedSessionKey, Error>>|
            {
                &&& #[trigger] keys_tried(session_key, alg, pkeys, encrypt, results)
                &&& if results.len() > 0 && results.last() is Err {
                    r == Err::<Message, Error>(results.last()->Err_0)
                } else {
                    sealed(m, made_esks(results), alg, session_key, protect, r)
                }
            };
        let e = r->Err_0;
        if results.len() > 0 && results.last() is Err {
            let i = results.len() - 1;
            assert(results[i] == Err::<PublicKeyEncryptedSessionKey, Error>(e));
            assert(call_ensures(encrypt, (session_key, alg, pkeys[i]), Err(e)));
            assert forall|j: int| 0 <= j < i implies serves(
                encrypt,
                session_key,
                alg,
                #[trigger] pkeys[j],
            ) by {
                let one = results[j]->Ok_0;
                assert(results[j] == Ok::<PublicKeyEncryptedSessionKey, Error>(one));
                assert(call_ensures(encrypt, (session_key, alg, pkeys[j]), Ok(one)));
            }
        } else {
            law_sealed_as_protected(m, made_esks(results), alg, session_key, protect, r);
            if m.wire() is Ok {
                let (octets, data) = choose|
                    octets: &[u8],
                    data: Result<SymEncryptedProtectedData, Error>,
                |
                    #![trigger call_ensures(protect, (alg, session_key, octets), data)]
                    {
                        &&& octets@ == m.wire()->Ok_0
                        &&& call_ensures(protect, (alg, session_key, octets), data)
                        &&& data == Err::<SymEncryptedProtectedData, Error>(e)
                    };
                assert(call_ensures(protect, (alg, session_key, octets), Err(e)));
            }
        }
    }
}

/// Whether `encrypt` can encrypt the session key to the key.
pub open spec fn serves<K, E>(
    encrypt: E,
    session_key: &[u8],
    alg: SymmetricKeyAlgorithm,
    pkey: &K,
) -> bool where
    E: Fn(&[u8], SymmetricKeyAlgorithm, &K) -> Result<PublicKeyEncryptedSessionKey, Error>,
 {
    exists|made: PublicKeyEncryptedSessionKey| #[trigger]
        call_ensures(encrypt, (session_key, alg, pkey), Ok(made))
}

/// Whether a packet is one that `encrypt` can have made from the session key for the key.
pub open spec fn made_for<K, E>(
    encrypt: E,
    session_key: &[u8],
    alg: SymmetricKeyAlgorithm,
    pkey: &K,
    packet: PacketModel,
) -> bool where
    E: Fn(&[u8], SymmetricKeyAlgorithm, &K) -> Result<PublicKeyEncryptedSessionKey, Error>,
 {
    exists|made: PublicKeyEncryptedSessionKey|
        {
            &&& #[trigger] call_ensures(encrypt, (session_key, alg, pkey), Ok(made))
            &&& packet == PacketModel::PublicKeyEncryptedSessionKey(made@)
        }
}

/// A message that is encrypted with a password has one session key packet, which `encrypt`
/// made from the password and the session key; an error is one of `encrypt`, of writing the
/// message, or of `protect`, and where none of these can fail, the message is encrypted.
pub proof fn law_sealed_with_the_password<F, T, S, P>(
    m: MessageModel,
    session_key: &[u8],
    s2k: T,
    alg: SymmetricKeyAlgorithm,
    msg_pw: F,
    encrypt: S,
    protect: P,
    r: Result<Message, Error>,
) where
    S: FnOnce(F, &[u8], T, SymmetricKeyAlgorithm) -> Result<SymKeyEncryptedSessionKey, Error>,
    P: Fn(SymmetricKeyAlgorithm, &[u8], &[u8]) -> Result<SymEncryptedProtectedData, Error>,

    requires
        sealed_with_password(m, session_key, s2k, alg, msg_pw, encrypt, protect, r),
    ensures
        r matches Ok(x) ==> (x@ matches MessageModel::Encrypted { esk, edata } && {
            &&& edata.len() == 1
            &&& exists|made: SymKeyEncryptedSessionKey|
                {
                    &&& #[trigger] call_ensures(
                        encrypt,
                        (msg_pw, session_key, s2k, alg),
                        Ok(made),
                    )
                    &&& esk == seq![PacketModel::SymKeyEncryptedSessionKey(made@)]
                }
        }),
        r matches Err(e) ==> {
            ||| m.wire() == Err::<Seq<u8>, Error>(e)
            ||| call_ensures(encrypt, (msg_pw, session_key, s2k, alg), Err(e))
            ||| exists|octets: &[u8]|
                m.wire() == Ok::<Seq<u8>, Error>(octets@) && #[trigger] call_ensures(
                    protect,
                    (alg, session_key, octets),
                    Err(e),
                )
        },
        ({
            &&& m.wire() is Ok
            &&& forall|e: Error| !#[trigger]
                call_ensures(encrypt, (msg_pw, session_key, s2k, alg), Err(e))
            &&& forall|octets: &[u8], e: Error| !#[trigger]
                call_ensures(protect, (alg, session_key, octets), Err(e))
        }) ==> r is Ok,
{
    let key = choose|key: Result<SymKeyEncryptedSessionKey, Error>|
        {
            &&& #[trigger] call_ensures(encrypt, (msg_pw, session_key, s2k, alg), key)
            &&& match key {
                Ok(k) => sealed(
                    m,
                    seq![PacketModel::SymKeyEncryptedSessionKey(k@)],
                    alg,
                    session_key,
                    protect,
                    r,
                ),
                Err(e) => r == Err::<Message, Error>(e),
            }
        };
    match key {
        Ok(k) => {
            let esk = seq![PacketModel::SymKeyEncryptedSessionKey(k@)];
            assert(call_ensures(encrypt, (msg_pw, session_key, s2k, alg), Ok(k)));
            law_sealed_as_protected(m, esk, alg, session_key, protect, r);
            if r is Err && m.wire() is Ok {
                let e = r->Err_0;
                let (octets, data) = choose|
                    octets: &[u8],
                    data: Result<SymEncryptedProtectedData, Error>,
                |
                    #![trigger call_ensures(protect, (alg, session_key, octets), data)]
                    {
                        &&& octets@ == m.wire()->Ok_0
                        &&& call_ensures(protect, (alg, session_key, octets), data)
                        &&& data == Err::<SymEncryptedProtectedData, Error>(e)
                    };
                assert(call_ensures(protect, (alg, session_key, octets), Err(e)));
            }
        },
        Err(e) => {
            assert(call_ensures(encrypt, (msg_pw, session_key, s2k, alg), Err(e)));
        },
    }
}

/// Which packets are session keys: those for a public key and those for a password, as they
/// are, and no others. What is not one is given back.
pub proof fn law_which_packets_are_session_keys(p: Packet, e: Esk)
    ensures
        <Esk as TryFromSpec<Packet>>::try_from_spec(p) is Ok <==> p is PublicKeyEncryptedSessionKey
            || p is SymKeyEncryptedSessionKey,
        <Esk as TryFromSpec<Packet>>::try_from_spec(p) matches Ok(x) ==> x@ == p@
            && <Packet as FromSpec<Esk>>::from_spec(x) == p,
        <Esk as TryFromSpec<Packet>>::try_from_spec(p) matches Err(x) ==> x
            == Error::InvalidPacketType(Box::new(p)),
        <Packet as FromSpec<Esk>>::from_spec(e)@ == e@,
        e@ == match e {
            Esk::PublicKeyEncryptedSessionKey(k) => PacketModel::PublicKeyEncryptedSessionKey(k@),
            Esk::SymKeyEncryptedSessionKey(k) => PacketModel::SymKeyEncryptedSessionKey(k@),
        },
{
}

/// Which packets are encrypted data: plain and protected data, as they are, and no others.
/// What is not is given back.
pub proof fn law_which_packets_are_encrypted_data(p: Packet, e: Edata)
    ensures
        <Edata as TryFromSpec<Packet>>::try_from_spec(p) is Ok <==> p is SymEncryptedData
            || p is SymEncryptedProtectedData,
        <Edata as TryFromSpec<Packet>>::try_from_spec(p) matches Ok(x) ==> x@ == p@
            && <Packet as FromSpec<Edata>>::from_spec(x) == p,
        <Edata as TryFromSpec<Packet>>::try_from_spec(p) matches Err(x) ==> x
            == Error::InvalidPacketType(Box::new(p)),
        <Packet as FromSpec<Edata>>::from_spec(e)@ == e@,
        match e {
            Edata::SymEncryptedData(d) => e@ == PacketModel::SymEncryptedData(d@)
                && encrypted_octets(e@) == d.data@,
            Edata::SymEncryptedProtectedData(d) => e@ == PacketModel::SymEncryptedProtectedData(d@)
                && encrypted_octets(e@) == d.data@,
        },
{
}

/// A session key or encrypted data gives up the packet that it was made of, as it was, and
/// no packet of another kind.
pub proof fn law_parts_turn_back(e: Esk, d: Edata)
    ensures
        match e {
            Esk::PublicKeyEncryptedSessionKey(k) => {
                &&& <Esk as FromSpec<PublicKeyEncryptedSessionKey>>::from_spec(k) == e
                &&& <PublicKeyEncryptedSessionKey as TryFromSpec<Esk>>::try_from_spec(e) == Ok::<
                    PublicKeyEncryptedSessionKey,
                    Error,
                >(k)
                &&& <SymKeyEncryptedSessionKey as TryFromSpec<Esk>>::try_from_spec(e) is Err
            },
            Esk::SymKeyEncryptedSessionKey(k) => {
                &&& <Esk as FromSpec<SymKeyEncryptedSessionKey>>::from_spec(k) == e
                &&& <SymKeyEncryptedSessionKey as TryFromSpec<Esk>>::try_from_spec(e) == Ok::<
                    SymKeyEncryptedSessionKey,
                    Error,
                >(k)
                &&& <PublicKeyEncryptedSessionKey as TryFromSpec<Esk>>::try_from_spec(e) is Err
            },
        },
        match d {
            Edata::SymEncryptedData(k) => {
                &&& <Edata as FromSpec<SymEncryptedData>>::from_spec(k) == d
                &&& <SymEncryptedData as TryFromSpec<Edata>>::try_from_spec(d) == Ok::<
                    SymEncryptedData,
                    Error,
                >(k)
                &&& <SymEncryptedProtectedData as TryFromSpec<Edata>>::try_from_spec(d) is Err
            },
            Edata::SymEncryptedProtectedData(k) => {
                &&& <Edata as FromSpec<SymEncryptedProtectedData>>::from_spec(k) == d
                &&& <SymEncryptedProtectedData as TryFromSpec<Edata>>::try_from_spec(d) == Ok::<
                    SymEncryptedProtectedData,
                    Error,
                >(k)
                &&& <SymEncryptedData as TryFromSpec<Edata>>::try_from_spec(d) is Err
            },
        },
{
}

/// How many bits the key of an algorithm has.
pub proof fn law_key_sizes_in_bits(alg: SymmetricKeyAlgorithm)
    ensures
        8 * alg.key_size() == match alg {
            SymmetricKeyAlgorithm::Plaintext => 0int,
            SymmetricKeyAlgorithm::IDEA => 128,
            SymmetricKeyAlgorithm::TripleDES => 192,
            SymmetricKeyAlgorithm::CAST5 => 128,
            SymmetricKeyAlgorithm::Blowfish => 128,
            SymmetricKeyAlgorithm::AES128 => 128,
            SymmetricKeyAlgorithm::AES192 => 192,
            SymmetricKeyAlgorithm::AES256 => 256,
            SymmetricKeyAlgorithm::Twofish => 256,
            SymmetricKeyAlgorithm::Camellia128 => 128,
            SymmetricKeyAlgorithm::Camellia192 => 192,
            SymmetricKeyAlgorithm::Camellia256 => 256,
        },
{
}

} // verus!
