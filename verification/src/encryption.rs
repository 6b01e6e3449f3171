//! Encrypting a message.
//!
//! The ciphers themselves are the caller's: they are handed in as functions. What is
//! settled here is what they are given, in which order, and what becomes of their
//! results.
use crate::decryption::{lemma_pkesk_ids_push, pkesk_ids};
use crate::encrypted::{Edata, Esk};
use crate::errors::Error;
use crate::grammar::message_of;
use crate::message::{edata_models, esk_models, Message, MessageModel};
use crate::packet::{
    PacketModel, PublicKeyEncryptedSessionKey, SymEncryptedProtectedData,
    SymKeyEncryptedSessionKey,
};
use crate::session_key::{drawn, SymmetricKeyAlgorithm};
use crate::types::KeyId;
use rand::rngs::ThreadRng;
use vstd::prelude::*;

verus! {

/// What sealing a message under a session key comes to: its octets are handed to
/// `protect`, and what that gives becomes the data of the encrypted message, next to
/// the encrypted session keys.
pub open spec fn sealed<P>(
    m: MessageModel,
    esk: Seq<PacketModel>,
    alg: SymmetricKeyAlgorithm,
    session_key: &[u8],
    protect: P,
    r: Result<Message, Error>,
) -> bool where
    P: Fn(SymmetricKeyAlgorithm, &[u8], &[u8]) -> Result<SymEncryptedProtectedData, Error>,
 {
    match m.wire() {
        Err(e) => r == Err::<Message, Error>(e),
        Ok(bytes) => exists|octets: &[u8], data: Result<SymEncryptedProtectedData, Error>|
            #![trigger call_ensures(protect, (alg, session_key, octets), data)]
            {
                &&& octets@ == bytes
                &&& call_ensures(protect, (alg, session_key, octets), data)
                &&& match data {
                    Ok(d) => r matches Ok(x) && x@ == (MessageModel::Encrypted {
                        esk,
                        edata: seq![PacketModel::SymEncryptedProtectedData(d@)],
                    }),
                    Err(e) => r == Err::<Message, Error>(e),
                }
            },
    }
}

/// Whether these are the results of encrypting the session key to one key after the
/// other, up to the last key or the first failure.
pub open spec fn keys_tried<K, E>(
    session_key: &[u8],
    alg: SymmetricKeyAlgorithm,
    pkeys: Seq<&K>,
    encrypt: E,
    results: Seq<Result<PublicKeyEncryptedSessionKey, Error>>,
) -> bool where
    E: Fn(&[u8], SymmetricKeyAlgorithm, &K) -> Result<PublicKeyEncryptedSessionKey, Error>,
 {
    &&& results.len() <= pkeys.len()
    &&& forall|i: int|
        0 <= i < results.len() ==> call_ensures(
            encrypt,
            (session_key, alg, pkeys[i]),
            #[trigger] results[i],
        )
    &&& forall|i: int| 0 <= i < results.len() - 1 ==> (#[trigger] results[i]) is Ok
    &&& results.len() < pkeys.len() ==> results.len() > 0 && results.last() is Err
}

/// The packets of encrypted session keys that were made.
pub open spec fn made_esks(
    results: Seq<Result<PublicKeyEncryptedSessionKey, Error>>,
) -> Seq<PacketModel> {
    results.map_values(
        |k: Result<PublicKeyEncryptedSessionKey, Error>|
            PacketModel::PublicKeyEncryptedSessionKey(k->Ok_0@),
    )
}

/// What encrypting a message to public keys comes to.
pub open spec fn sealed_to_keys<K, E, P>(
    m: MessageModel,
    session_key: &[u8],
    alg: SymmetricKeyAlgorithm,
    pkeys: Seq<&K>,
    encrypt: E,
    protect: P,
    r: Result<Message, Error>,
) -> bool where
    E: Fn(&[u8], SymmetricKeyAlgorithm, &K) -> Result<PublicKeyEncryptedSessionKey, Error>,
    P: Fn(SymmetricKeyAlgorithm, &[u8], &[u8]) -> Result<SymEncryptedProtectedData, Error>,
 {
    exists|results: Seq<Result<PublicKeyEncryptedSessionKey, Error>>|
        {
            &&& #[trigger] keys_tried(session_key, alg, pkeys, encrypt, results)
            &&& if results.len() > 0 && results.last() is Err {
                r == Err::<Message, Error>(results.last()->Err_0)
            } else {
                sealed(m, made_esks(results), alg, session_key, protect, r)
            }
        }
}

/// What encrypting a message with a password comes to.
pub open spec fn sealed_with_password<F, T, S, P>(
    m: MessageModel,
    session_key: &[u8],
    s2k: T,
    alg: SymmetricKeyAlgorithm,
    msg_pw: F,
    encrypt: S,
    protect: P,
    r: Result<Message, Error>,
) -> bool where
    S: FnOnce(F, &[u8], T, SymmetricKeyAlgorithm) -> Result<SymKeyEncryptedSessionKey, Error>,
    P: Fn(SymmetricKeyAlgorithm, &[u8], &[u8]) -> Result<SymEncryptedProtectedData, Error>,
 {
    exists|key: Result<SymKeyEncryptedSessionKey, Error>|
        {
            &&& #[trigger] call_ensures(encrypt, (msg_pw, session_key, s2k, alg), key)
            &&& match key {
                Ok(k) => sealed(
                    m,
                    seq![PacketModel::SymKeyEncryptedSessionKey(k@)],
                    alg,
                    session_key,
                    protect,
                    r,
                ),
                Err(e) => r == Err::<Message, Error>(e),
            }
        }
}

/// What was encrypted can be read again: the data of a sealed message is what `protect`
/// made of the octets of the message, and whoever gets those octets back reads the
/// message in them. The sealed message itself reads back, too.
pub proof fn law_sealed_message_opens<P>(
    m: MessageModel,
    esk: Seq<PacketModel>,
    alg: SymmetricKeyAlgorithm,
    session_key: &[u8],
    protect: P,
    message: Message,
) where
    P: Fn(SymmetricKeyAlgorithm, &[u8], &[u8]) -> Result<SymEncryptedProtectedData, Error>,

    requires
        m.comes_back(),
        sealed(m, esk, alg, session_key, protect, Ok(message)),
    ensures
        message@.reads_back(),
        message.encrypted_part() matches Some((e, d)) && esk_models(e) == esk && d.len() == 1
            && exists|octets: &[u8], data: SymEncryptedProtectedData|
            {
                &&& #[trigger] call_ensures(protect, (alg, session_key, octets), Ok(data))
                &&& d[0]@ == PacketModel::SymEncryptedProtectedData(data@)
                &&& Ok::<Seq<u8>, Error>(octets@) == m.wire()
                &&& message_of(octets@) == Ok::<MessageModel, Error>(m)
            },
{
    let bytes = m.wire()->Ok_0;
    let (octets, data) = choose|octets: &[u8], data: Result<SymEncryptedProtectedData, Error>|
        #![trigger call_ensures(protect, (alg, session_key, octets), data)]
        {
            &&& octets@ == bytes
            &&& call_ensures(protect, (alg, session_key, octets), data)
            &&& match data {
                Ok(d) => message@ == (MessageModel::Encrypted {
                    esk,
                    edata: seq![PacketModel::SymEncryptedProtectedData(d@)],
                }),
                Err(e) => false,
            }
        };
    let d = data->Ok_0;
    assert(data == Ok::<SymEncryptedProtectedData, Error>(d));
    match message {
        Message::Encrypted { esk: e, edata } => {
            assert(edata_models(edata@).len() == 1);
            assert(edata_models(edata@)[0] == edata@[0]@);
        },
        _ => {},
    }
}

/// Whether every session key that `encrypt` encrypts to one of the public keys names that
/// key by its identifier in `ids`.
pub open spec fn names_keys<K, E>(
    encrypt: E,
    session_key: &[u8],
    alg: SymmetricKeyAlgorithm,
    pkeys: Seq<&K>,
    ids: Seq<KeyId>,
) -> bool where
    E: Fn(&[u8], SymmetricKeyAlgorithm, &K) -> Result<PublicKeyEncryptedSessionKey, Error>,
 {
    &&& ids.len() == pkeys.len()
    &&& forall|i: int, made: PublicKeyEncryptedSessionKey|
        0 <= i < pkeys.len() && #[trigger] call_ensures(
            encrypt,
            (session_key, alg, pkeys[i]),
            Ok(made),
        ) ==> made.id == ids[i]
}

/// The recipients of a message that was encrypted to public keys are those keys, in their
/// order.
pub proof fn law_recipients_are_those_encrypted_to<K, E, P>(
    m: MessageModel,
    session_key: &[u8],
    alg: SymmetricKeyAlgorithm,
    pkeys: Seq<&K>,
    encrypt: E,
    protect: P,
    message: Message,
    ids: Seq<KeyId>,
) where
    E: Fn(&[u8], SymmetricKeyAlgorithm, &K) -> Result<PublicKeyEncryptedSessionKey, Error>,
    P: Fn(SymmetricKeyAlgorithm, &[u8], &[u8]) -> Result<SymEncryptedProtectedData, Error>,

    requires
        names_keys(encrypt, session_key, alg, pkeys, ids),
        sealed_to_keys(m, session_key, alg, pkeys, encrypt, protect, Ok(message)),
    ensures
        message@.recipients() == ids,
{
    let made = lemma_made(m, session_key, alg, pkeys, encrypt, protect, message);
    lemma_made_ids(made);
    assert forall|i: int| 0 <= i < pkeys.len() implies (#[trigger] made[i])->Ok_0.id == ids[i] by {
        assert(made[i] == Ok::<PublicKeyEncryptedSessionKey, Error>(made[i]->Ok_0));
    }
    assert(pkesk_ids(made_esks(made)) =~= ids);
}

/// The session keys in a message that was encrypted to public keys: one for each key.
pub proof fn lemma_made<K, E, P>(
    m: MessageModel,
    session_key: &[u8],
    alg: SymmetricKeyAlgorithm,
    pkeys: Seq<&K>,
    encrypt: E,
    protect: P,
    message: Message,
) -> (made: Seq<Result<PublicKeyEncryptedSessionKey, Error>>) where
    E: Fn(&[u8], SymmetricKeyAlgorithm, &K) -> Result<PublicKeyEncryptedSessionKey, Error>,
    P: Fn(SymmetricKeyAlgorithm, &[u8], &[u8]) -> Result<SymEncryptedProtectedData, Error>,

    requires
        sealed_to_keys(m, session_key, alg, pkeys, encrypt, protect, Ok(message)),
    ensures
        keys_tried(session_key, alg, pkeys, encrypt, made),
        made.len() == pkeys.len(),
        forall|i: int| 0 <= i < made.len() ==> (#[trigger] made[i]) is Ok,
        sealed(m, made_esks(made), alg, session_key, protect, Ok(message)),
        message@.recipients() == pkesk_ids(made_esks(made)),
{
    let made = choose|made: Seq<Result<PublicKeyEncryptedSessionKey, Error>>|
        {
            &&& #[trigger] keys_tried(session_key, alg, pkeys, encrypt, made)
            &&& if made.len() > 0 && made.last() is Err {
                false
            } else {
                sealed(m, made_esks(made), alg, session_key, protect, Ok(message))
            }
        };
    assert forall|i: int| 0 <= i < made.len() implies (#[trigger] made[i]) is Ok by {
        assert(made.last() is Ok);
    }
    made
}

/// The keys that made session keys are encrypted to, in their order.
proof fn lemma_made_ids(
    results: Seq<Result<PublicKeyEncryptedSessionKey, Error>>,
)
    ensures
        pkesk_ids(made_esks(results)) == results.map_values(
            |k: Result<PublicKeyEncryptedSessionKey, Error>| k->Ok_0.id,
        ),
    decreases results.len(),
{
    let ids = results.map_values(|k: Result<PublicKeyEncryptedSessionKey, Error>| k->Ok_0.id);
    if results.len() == 0 {
        reveal(Seq::filter);
        assert(made_esks(results) =~= Seq::empty());
        assert(pkesk_ids(made_esks(results)) =~= ids);
    } else {
        let front = results.drop_last();
        lemma_made_ids(front);
        let last = PacketModel::PublicKeyEncryptedSessionKey(results.last()->Ok_0@);
        lemma_pkesk_ids_push(made_esks(front), last);
        assert(made_esks(results) =~= made_esks(front).push(last));
        assert(ids =~= front.map_values(
            |k: Result<PublicKeyEncryptedSessionKey, Error>| k->Ok_0.id,
        ).push(results.last()->Ok_0.id));
    }
}

impl Message {
    /// Encrypts the message under a session key, with `protect`, and puts the encrypted
    /// session keys before it.
    pub fn encrypt_symmetric<P>(
        &self,
        esk: Vec<Esk>,
        alg: SymmetricKeyAlgorithm,
        session_key: &[u8],
        protect: P,
    ) -> (r: Result<Self, Error>) where
        P: Fn(SymmetricKeyAlgorithm, &[u8], &[u8]) -> Result<SymEncryptedProtectedData, Error>,

        requires
            forall|d: &[u8]| call_requires(protect, (alg, session_key, d)),
        ensures
            sealed(self@, esk_models(esk@), alg, session_key, protect, r),
    {
        let bytes = match self.to_bytes() {
            Ok(bytes) => bytes,
            Err(e) => {
                return Err(e);
            },
        };
        match protect(alg, session_key, bytes.as_slice()) {
            Ok(data) => {
                let mut edata: Vec<Edata> = Vec::new();
                edata.push(Edata::SymEncryptedProtectedData(data));
                assert(edata_models(edata@) =~= seq![
                    PacketModel::SymEncryptedProtectedData(data@),
                ]);
                Ok(Message::Encrypted { esk, edata })
            },
            Err(e) => Err(e),
        }
    }

    /// Encrypts the message under the given session key, which `encrypt` encrypts to
    /// each of the public keys.
    pub fn encrypt_to_keys_under<K, E, P>(
        &self,
        session_key: &[u8],
        alg: SymmetricKeyAlgorithm,
        pkeys: &[&K],
        encrypt: E,
        protect: P,
    ) -> (r: Result<Self, Error>) where
        E: Fn(&[u8], SymmetricKeyAlgorithm, &K) -> Result<PublicKeyEncryptedSessionKey, Error>,
        P: Fn(SymmetricKeyAlgorithm, &[u8], &[u8]) -> Result<SymEncryptedProtectedData, Error>,

        requires
            forall|k: &K| call_requires(encrypt, (session_key, alg, k)),
            forall|d: &[u8]| call_requires(protect, (alg, session_key, d)),
        ensures
            sealed_to_keys(self@, session_key, alg, pkeys@, encrypt, protect, r),
    {
        let mut esk: Vec<Esk> = Vec::new();
        let ghost mut results: Seq<Result<PublicKeyEncryptedSessionKey, Error>> = Seq::empty();
        for i in 0..pkeys.len()
            invariant
                forall|k: &K| call_requires(encrypt, (session_key, alg, k)),
                results.len() == i,
                forall|j: int|
                    0 <= j < i ==> call_ensures(
                        encrypt,
                        (session_key, alg, pkeys@[j]),
                        #[trigger] results[j],
                    ) && results[j] is Ok,
                esk_models(esk@) == made_esks(results),
        {
            let made = encrypt(session_key, alg, pkeys[i]);
            let ghost earlier = results;
            proof {
                results = results.push(made);
            }
            match made {
                Ok(k) => {
                    let ghost before = esk@;
                    let key = Esk::PublicKeyEncryptedSessionKey(k);
                    esk.push(key);
                    assert(esk_models(esk@) =~= esk_models(before).push(key@));
                    assert(made_esks(results) =~= made_esks(earlier).push(key@));
                },
                Err(e) => {
                    assert(keys_tried(session_key, alg, pkeys@, encrypt, results));
                    return Err(e);
                },
            }
        }
        assert(keys_tried(session_key, alg, pkeys@, encrypt, results));
        self.encrypt_symmetric(esk, alg, session_key, protect)
    }

    /// Encrypts the message to the given public keys, under a new session key.
    pub fn encrypt_to_keys<K, E, P>(
        &self,
        rng: &mut ThreadRng,
        alg: SymmetricKeyAlgorithm,
        pkeys: &[&K],
        encrypt: E,
        protect: P,
    ) -> (r: Result<Self, Error>) where
        E: Fn(&[u8], SymmetricKeyAlgorithm, &K) -> Result<PublicKeyEncryptedSessionKey, Error>,
        P: Fn(SymmetricKeyAlgorithm, &[u8], &[u8]) -> Result<SymEncryptedProtectedData, Error>,

        requires
            forall|s: &[u8], k: &K| call_requires(encrypt, (s, alg, k)),
            forall|s: &[u8], d: &[u8]| call_requires(protect, (alg, s, d)),
        ensures
            exists|session_key: &[u8]|
                drawn(alg, *old(rng), session_key@) && #[trigger] sealed_to_keys(
                    self@,
                    session_key,
                    alg,
                    pkeys@,
                    encrypt,
                    protect,
                    r,
                ),
    {
        let session_key = alg.new_session_key(rng);
        self.encrypt_to_keys_under(session_key.as_slice(), alg, pkeys, encrypt, protect)
    }

    /// Encrypts the message under the given session key, which `encrypt` encrypts with
    /// the password.
    pub fn encrypt_with_password_under<F, T, S, P>(
        &self,
        session_key: &[u8],
        s2k: T,
        alg: SymmetricKeyAlgorithm,
        msg_pw: F,
        encrypt: S,
        protect: P,
    ) -> (r: Result<Self, Error>) where
        S: FnOnce(F, &[u8], T, SymmetricKeyAlgorithm) -> Result<SymKeyEncryptedSessionKey, Error>,
        P: Fn(SymmetricKeyAlgorithm, &[u8], &[u8]) -> Result<SymEncryptedProtectedData, Error>,

        requires
            call_requires(encrypt, (msg_pw, session_key, s2k, alg)),
            forall|d: &[u8]| call_requires(protect, (alg, session_key, d)),
        ensures
            sealed_with_password(self@, session_key, s2k, alg, msg_pw, encrypt, protect, r),
    {
        match encrypt(msg_pw, session_key, s2k, alg) {
            Ok(k) => {
                let mut esk: Vec<Esk> = Vec::new();
                esk.push(Esk::SymKeyEncryptedSessionKey(k));
                assert(esk_models(esk@) =~= seq![PacketModel::SymKeyEncryptedSessionKey(k@)]);
                self.encrypt_symmetric(esk, alg, session_key, protect)
            },
            Err(e) => Err(e),
        }
    }

    /// Encrypts the message with a password, under a new session key.
    pub fn encrypt_with_password<F, T, S, P>(
        &self,
        rng: &mut ThreadRng,
        s2k: T,
        alg: SymmetricKeyAlgorithm,
        msg_pw: F,
        encrypt: S,
        protect: P,
    ) -> (r: Result<Self, Error>) where
        S: FnOnce(F, &[u8], T, SymmetricKeyAlgorithm) -> Result<SymKeyEncryptedSessionKey, Error>,
        P: Fn(SymmetricKeyAlgorithm, &[u8], &[u8]) -> Result<SymEncryptedProtectedData, Error>,

        requires
            forall|s: &[u8]| call_requires(encrypt, (msg_pw, s, s2k, alg)),
            forall|s: &[u8], d: &[u8]| call_requires(protect, (alg, s, d)),
        ensures
            exists|session_key: &[u8]|
                drawn(alg, *old(rng), session_key@) && #[trigger] sealed_with_password(
                    self@,
                    session_key,
                    s2k,
                    alg,
                    msg_pw,
                    encrypt,
                    protect,
                    r,
                ),
    {
        let session_key = alg.new_session_key(rng);
        self.encrypt_with_password_under(
            session_key.as_slice(),
            s2k,
            alg,
            msg_pw,
            encrypt,
            protect,
        )
    }
}

} // verus!
