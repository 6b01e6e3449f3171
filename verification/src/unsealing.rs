//! What was encrypted decrypts again, if the caller's ciphers undo each other.
use crate::decryption::{
    agreed, all_fitting, fitting, good_keys, keys_decrypted, law_fitting_iff_recipient,
    law_one_good_key_suffices, opened_data, packet_opened, pkesk_ids, unlocked, unlocked_with_password,
    MessageDecrypter, SecretKey, SignedSecretKey,
};
use crate::encrypted::{Edata, Esk};
use crate::encryption::{
    keys_tried, law_recipients_are_those_encrypted_to, law_sealed_message_opens, lemma_made,
    made_esks, names_keys, sealed, sealed_to_keys, sealed_with_password,
};
use crate::errors::Error;
use crate::message::{esk_models, Message, MessageModel};
use crate::packet::{
    PacketModel, PublicKeyEncryptedSessionKey, SymEncryptedProtectedData,
    SymKeyEncryptedSessionKey,
};
use crate::session_key::SymmetricKeyAlgorithm;
use crate::types::KeyId;
use vstd::prelude::*;

verus! {

/// Whether `open` undoes what `protect` does to data under a session key.
pub open spec fn data_opens<P, O>(
    protect: P,
    open: O,
    alg: SymmetricKeyAlgorithm,
    session_key: &[u8],
) -> bool where
    P: Fn(SymmetricKeyAlgorithm, &[u8], &[u8]) -> Result<SymEncryptedProtectedData, Error>,
    O: Fn(SymmetricKeyAlgorithm, &Vec<u8>, &Edata) -> Result<Vec<u8>, Error>,
 {
    forall|
        octets: &[u8],
        data: SymEncryptedProtectedData,
        key: &Vec<u8>,
        packet: &Edata,
        plain: Result<Vec<u8>, Error>,
    |
        #![trigger call_ensures(protect, (alg, session_key, octets), Ok(data)), call_ensures(open, (alg, key, packet), plain)]
        {
            &&& call_ensures(protect, (alg, session_key, octets), Ok(data))
            &&& key@ == session_key@
            &&& packet@ == PacketModel::SymEncryptedProtectedData(data@)
            &&& call_ensures(open, (alg, key, packet), plain)
        } ==> (plain matches Ok(x) && x@ == octets@)
}

/// Whether a result of decrypting a session key is the given one.
pub open spec fn is_session_key(
    got: Result<(Vec<u8>, SymmetricKeyAlgorithm), Error>,
    session_key: &[u8],
    alg: SymmetricKeyAlgorithm,
) -> bool {
    got matches Ok((k, a)) && k@ == session_key@ && a == alg
}

/// Whether `decrypt` gets back, with one password, a session key that `encrypt`
/// encrypted with another; the two passwords are then as good as the same.
pub open spec fn password_opens<F, T, S, G, D>(
    encrypt: S,
    decrypt: D,
    session_key: &[u8],
    s2k: T,
    alg: SymmetricKeyAlgorithm,
    sealing_pw: F,
    opening_pw: G,
) -> bool where
    S: FnOnce(F, &[u8], T, SymmetricKeyAlgorithm) -> Result<SymKeyEncryptedSessionKey, Error>,
    D: FnOnce(&SymKeyEncryptedSessionKey, G) -> Result<(Vec<u8>, SymmetricKeyAlgorithm), Error>,
 {
    forall|
        made: SymKeyEncryptedSessionKey,
        read: &SymKeyEncryptedSessionKey,
        got: Result<(Vec<u8>, SymmetricKeyAlgorithm), Error>,
    |
        #![trigger call_ensures(encrypt, (sealing_pw, session_key, s2k, alg), Ok(made)), call_ensures(decrypt, (read, opening_pw), got)]
        {
            &&& call_ensures(encrypt, (sealing_pw, session_key, s2k, alg), Ok(made))
            &&& read@ == made@
            &&& call_ensures(decrypt, (read, opening_pw), got)
        } ==> is_session_key(got, session_key, alg)
}

/// Whether `got` can be what `decrypt` gets, with the secret key `key`, from a session
/// key that `encrypt` encrypted to one of the public keys.
pub open spec fn got_with<K, E, G, S, D>(
    encrypt: E,
    decrypt: D,
    session_key: &[u8],
    alg: SymmetricKeyAlgorithm,
    pkeys: Seq<&K>,
    key_pw: &G,
    key: &SignedSecretKey<S>,
    got: Result<(Vec<u8>, SymmetricKeyAlgorithm), Error>,
) -> bool where
    E: Fn(&[u8], SymmetricKeyAlgorithm, &K) -> Result<PublicKeyEncryptedSessionKey, Error>,
    D: Fn(&SecretKey<S>, &G, &Vec<u8>) -> Result<(Vec<u8>, SymmetricKeyAlgorithm), Error>,
 {
    exists|
        i: int,
        made: PublicKeyEncryptedSessionKey,
        secret: &SecretKey<S>,
        mpis: &Vec<u8>,
    |
        {
            &&& 0 <= i < pkeys.len()
            &&& #[trigger] call_ensures(encrypt, (session_key, alg, pkeys[i]), Ok(made))
            &&& key.with_id(made.id) == Some(*secret)
            &&& mpis@ == made.mpis@
            &&& #[trigger] call_ensures(decrypt, (secret, key_pw, mpis), got)
        }
}

/// The packet of a received message gives the message that was sealed in it.
proof fn lemma_packet_opens<P, O>(
    m: MessageModel,
    alg: SymmetricKeyAlgorithm,
    session_key: &[u8],
    protect: P,
    open: O,
    octets: &[u8],
    data: SymEncryptedProtectedData,
    key: &Vec<u8>,
    packet: &Edata,
    r: Option<Result<Message, Error>>,
) where
    P: Fn(SymmetricKeyAlgorithm, &[u8], &[u8]) -> Result<SymEncryptedProtectedData, Error>,
    O: Fn(SymmetricKeyAlgorithm, &Vec<u8>, &Edata) -> Result<Vec<u8>, Error>,

    requires
        m.comes_back(),
        data_opens(protect, open, alg, session_key),
        call_ensures(protect, (alg, session_key, octets), Ok(data)),
        Ok::<Seq<u8>, Error>(octets@) == m.wire(),
        packet@ == PacketModel::SymEncryptedProtectedData(data@),
        key@ == session_key@,
        packet_opened(alg, key, packet, open, r),
    ensures
        r matches Some(Ok(x)) && x@ == m,
{
    let plain = choose|plain: Result<Vec<u8>, Error>|
        #[trigger] call_ensures(open, (alg, key, packet), plain) && opened_data(plain, r);
    assert(plain is Ok);
}

/// A message that was encrypted with a password is read back with the password: if the
/// ciphers undo each other, decrypting gives a decrypter for one packet, and that packet
/// gives the message.
pub proof fn law_password_round_trip<'a, F, T, S, P, G, D, O>(
    m: MessageModel,
    session_key: &[u8],
    s2k: T,
    alg: SymmetricKeyAlgorithm,
    sealing_pw: F,
    encrypt: S,
    protect: P,
    sent: Message,
    received: Message,
    opening_pw: G,
    decrypt: D,
    open: O,
    unlocked: Result<MessageDecrypter<'a>, Error>,
    r: Option<Result<Message, Error>>,
) where
    S: FnOnce(F, &[u8], T, SymmetricKeyAlgorithm) -> Result<SymKeyEncryptedSessionKey, Error>,
    P: Fn(SymmetricKeyAlgorithm, &[u8], &[u8]) -> Result<SymEncryptedProtectedData, Error>,
    D: FnOnce(&SymKeyEncryptedSessionKey, G) -> Result<(Vec<u8>, SymmetricKeyAlgorithm), Error>,
    O: Fn(SymmetricKeyAlgorithm, &Vec<u8>, &Edata) -> Result<Vec<u8>, Error>,

    requires
        m.comes_back(),
        data_opens(protect, open, alg, session_key),
        password_opens(encrypt, decrypt, session_key, s2k, alg, sealing_pw, opening_pw),
        sealed_with_password(m, session_key, s2k, alg, sealing_pw, encrypt, protect, Ok(sent)),
        received@ == sent@,
        unlocked_with_password(received.encrypted_part(), opening_pw, decrypt, unlocked),
    ensures
        unlocked matches Ok(d) && d.pos == 0 && d.edata@.len() == 1 && (packet_opened(
            d.alg,
            &d.session_key,
            &d.edata@[0],
            open,
            r,
        ) ==> (r matches Some(Ok(x)) && x@ == m)),
{
    let key = choose|key: Result<SymKeyEncryptedSessionKey, Error>|
        {
            &&& #[trigger] call_ensures(encrypt, (sealing_pw, session_key, s2k, alg), key)
            &&& match key {
                Ok(k) => sealed(
                    m,
                    seq![PacketModel::SymKeyEncryptedSessionKey(k@)],
                    alg,
                    session_key,
                    protect,
                    Ok(sent),
                ),
                Err(e) => false,
            }
        };
    let made = key->Ok_0;
    assert(key == Ok::<SymKeyEncryptedSessionKey, Error>(made));
    let esk = seq![PacketModel::SymKeyEncryptedSessionKey(made@)];
    assert(sealed(m, esk, alg, session_key, protect, Ok(received)));
    law_sealed_message_opens(m, esk, alg, session_key, protect, received);
    let (e, d) = received.encrypted_part()->Some_0;
    assert(esk_models(e).len() == 1);
    assert(esk_models(e)[0] == e[0]@);
    let (octets, data) = choose|octets: &[u8], data: SymEncryptedProtectedData|
        {
            &&& #[trigger] call_ensures(protect, (alg, session_key, octets), Ok(data))
            &&& Ok::<Seq<u8>, Error>(octets@) == m.wire()
            &&& d[0]@ == PacketModel::SymEncryptedProtectedData(data@)
        };
    assert(unlocked is Ok);
    let decrypter = unlocked->Ok_0;
    if packet_opened(decrypter.alg, &decrypter.session_key, &decrypter.edata@[0], open, r) {
        lemma_packet_opens(
            m,
            alg,
            session_key,
            protect,
            open,
            octets,
            data,
            &decrypter.session_key,
            &decrypter.edata@[0],
            r,
        );
    }
}

/// Each pair of a session key and a secret key comes from one of the keys.
proof fn lemma_pair_source<S>(keys: Seq<&SignedSecretKey<S>>, esk: Seq<Esk>, i: int) -> (j: int)
    requires
        0 <= i < all_fitting(keys, esk).len(),
    ensures
        0 <= j < keys.len(),
        fitting(*keys[j], esk) == Some(all_fitting(keys, esk)[i]),
    decreases keys.len(),
{
    let front = keys.drop_last();
    if i < all_fitting(front, esk).len() {
        let j = lemma_pair_source(front, esk, i);
        assert(front[j] == keys[j]);
        j
    } else {
        keys.len() - 1
    }
}

/// Each key that fits has a pair.
proof fn lemma_pair_index<S>(keys: Seq<&SignedSecretKey<S>>, esk: Seq<Esk>, j: int) -> (i: int)
    requires
        0 <= j < keys.len(),
        fitting(*keys[j], esk) is Some,
    ensures
        0 <= i < all_fitting(keys, esk).len(),
        fitting(*keys[j], esk) == Some(all_fitting(keys, esk)[i]),
    decreases keys.len(),
{
    let front = keys.drop_last();
    if j < front.len() {
        assert(front[j] == keys[j]);
        lemma_pair_index(front, esk, j)
    } else {
        all_fitting(front, esk).len() as int
    }
}

/// What decrypting a fitting session key of a received message gives is what `decrypt`
/// gets from a session key that was made.
proof fn lemma_pair_was_made<K, E, G, S, D>(
    encrypt: E,
    decrypt: D,
    session_key: &[u8],
    alg: SymmetricKeyAlgorithm,
    pkeys: Seq<&K>,
    key_pw: &G,
    made: Seq<Result<PublicKeyEncryptedSessionKey, Error>>,
    key: &SignedSecretKey<S>,
    esk: Seq<Esk>,
    got: Result<(Vec<u8>, SymmetricKeyAlgorithm), Error>,
) where
    E: Fn(&[u8], SymmetricKeyAlgorithm, &K) -> Result<PublicKeyEncryptedSessionKey, Error>,
    D: Fn(&SecretKey<S>, &G, &Vec<u8>) -> Result<(Vec<u8>, SymmetricKeyAlgorithm), Error>,

    requires
        keys_tried(session_key, alg, pkeys, encrypt, made),
        forall|i: int| 0 <= i < made.len() ==> (#[trigger] made[i]) is Ok,
        esk_models(esk) == made_esks(made),
        fitting(*key, esk) matches Some((k, s)) && call_ensures(
            decrypt,
            (&s, key_pw, &k.mpis),
            got,
        ),
    ensures
        got_with(encrypt, decrypt, session_key, alg, pkeys, key_pw, key, got),
{
    law_fitting_iff_recipient(*key, esk);
    let (k, s) = fitting(*key, esk)->Some_0;
    let i = choose|i: int| 0 <= i < esk.len() && esk[i] == Esk::PublicKeyEncryptedSessionKey(k);
    assert(esk_models(esk)[i] == PacketModel::PublicKeyEncryptedSessionKey(k@));
    let one = made[i]->Ok_0;
    assert(made[i] == Ok::<PublicKeyEncryptedSessionKey, Error>(one));
    assert(made_esks(made)[i] == PacketModel::PublicKeyEncryptedSessionKey(one@));
    assert(call_ensures(encrypt, (session_key, alg, pkeys[i]), Ok(one)));
    assert(key.with_id(one.id) == Some(*&s));
    assert(call_ensures(decrypt, (&s, key_pw, &k.mpis), got));
}

/// A message that was encrypted to public keys is read back by whoever holds a key that
/// it is encrypted to. Of the secret keys that are offered, one fits the message and
/// gives a session key, and none gives another than the one that was sealed with; other
/// keys may fail. If the ciphers undo each other, decrypting then gives a decrypter for
/// one packet, and that packet gives the message.
pub proof fn law_keys_round_trip<'a, K, E, P, G, S, D, O>(
    m: MessageModel,
    session_key: &[u8],
    alg: SymmetricKeyAlgorithm,
    pkeys: Seq<&K>,
    encrypt: E,
    protect: P,
    sent: Message,
    received: Message,
    keys: Seq<&SignedSecretKey<S>>,
    holder: int,
    key_pw: &G,
    decrypt: D,
    open: O,
    opened: Result<(MessageDecrypter<'a>, Vec<KeyId>), Error>,
    r: Option<Result<Message, Error>>,
) where
    E: Fn(&[u8], SymmetricKeyAlgorithm, &K) -> Result<PublicKeyEncryptedSessionKey, Error>,
    P: Fn(SymmetricKeyAlgorithm, &[u8], &[u8]) -> Result<SymEncryptedProtectedData, Error>,
    D: Fn(&SecretKey<S>, &G, &Vec<u8>) -> Result<(Vec<u8>, SymmetricKeyAlgorithm), Error>,
    O: Fn(SymmetricKeyAlgorithm, &Vec<u8>, &Edata) -> Result<Vec<u8>, Error>,

    requires
        m.comes_back(),
        data_opens(protect, open, alg, session_key),
        sealed_to_keys(m, session_key, alg, pkeys, encrypt, protect, Ok(sent)),
        received@ == sent@,
        0 <= holder < keys.len(),
        exists|i: int|
            0 <= i < received@.recipients().len() && keys[holder].with_id(
                #[trigger] received@.recipients()[i],
            ) is Some,
        forall|got: Result<(Vec<u8>, SymmetricKeyAlgorithm), Error>| #[trigger]
            got_with(encrypt, decrypt, session_key, alg, pkeys, key_pw, keys[holder], got)
                ==> got is Ok,
        forall|j: int, got: Result<(Vec<u8>, SymmetricKeyAlgorithm), Error>|
            0 <= j < keys.len() && #[trigger] got_with(
                encrypt,
                decrypt,
                session_key,
                alg,
                pkeys,
                key_pw,
                keys[j],
                got,
            ) ==> got is Err || is_session_key(got, session_key, alg),
        unlocked(received.encrypted_part(), keys, key_pw, decrypt, opened),
    ensures
        opened matches Ok((d, ids)) && ids@.len() > 0 && d.pos == 0 && d.edata@.len() == 1 && (
        packet_opened(d.alg, &d.session_key, &d.edata@[0], open, r) ==> (r matches Some(Ok(x))
            && x@ == m)),
        keys.len() == 1 ==> {
            &&& opened matches Ok((_, ids))
            &&& fitting(*keys[0], received.encrypted_part()->Some_0.0) matches Some((packet, _))
            &&& ids@ == seq![packet.id]
        },
{
    let made = lemma_made(m, session_key, alg, pkeys, encrypt, protect, sent);
    assert(sealed(m, made_esks(made), alg, session_key, protect, Ok(received)));
    law_sealed_message_opens(m, made_esks(made), alg, session_key, protect, received);
    let (esk, edata) = received.encrypted_part()->Some_0;
    let pairs = all_fitting(keys, esk);
    assert(received@.recipients() == pkesk_ids(esk_models(esk)));
    law_fitting_iff_recipient(*keys[holder], esk);
    let h = lemma_pair_index(keys, esk, holder);
    let results = choose|results: Seq<Result<(Vec<u8>, SymmetricKeyAlgorithm), Error>>|
        {
            &&& #[trigger] keys_decrypted(pairs, key_pw, decrypt, results)
            &&& match agreed(good_keys(pairs, results)) {
                Ok((key, a, ids)) => {
                    &&& opened matches Ok((d, i))
                    &&& d.session_key@ == key
                    &&& d.alg == a
                    &&& d.edata@ == edata
                    &&& d.pos == 0
                    &&& i@ == ids
                },
                Err(e) => opened == Err::<(MessageDecrypter<'a>, Vec<KeyId>), Error>(e),
            }
        };
    assert(results[h] is Ok) by {
        lemma_pair_was_made(
            encrypt,
            decrypt,
            session_key,
            alg,
            pkeys,
            key_pw,
            made,
            keys[holder],
            esk,
            results[h],
        );
    }
    assert forall|i: int| 0 <= i < results.len() implies ((#[trigger] results[i]) matches Ok((k, a))
        ==> k@ == session_key@ && a == alg) by {
        let j = lemma_pair_source(keys, esk, i);
        lemma_pair_was_made(
            encrypt,
            decrypt,
            session_key,
            alg,
            pkeys,
            key_pw,
            made,
            keys[j],
            esk,
            results[i],
        );
    }
    law_one_good_key_suffices(pairs, results, session_key@, alg);
    let (octets, data) = choose|octets: &[u8], data: SymEncryptedProtectedData|
        {
            &&& #[trigger] call_ensures(protect, (alg, session_key, octets), Ok(data))
            &&& Ok::<Seq<u8>, Error>(octets@) == m.wire()
            &&& edata[0]@ == PacketModel::SymEncryptedProtectedData(data@)
        };
    assert(opened is Ok);
    if keys.len() == 1 {
        let found = good_keys(pairs, results);
        assert(keys.drop_last() =~= Seq::empty());
        assert(all_fitting(keys.drop_last(), esk).len() == 0);
        assert(results.drop_last() =~= Seq::empty());
        assert(good_keys(pairs, results.drop_last()).len() == 0);
        assert(found.len() == 1 && found[0].0 == pairs[0].1.key_id);
        assert(opened->Ok_0.1@ =~= seq![pairs[0].0.id]);
    }
    let decrypter = opened->Ok_0.0;
    if packet_opened(decrypter.alg, &decrypter.session_key, &decrypter.edata@[0], open, r) {
        lemma_packet_opens(
            m,
            alg,
            session_key,
            protect,
            open,
            octets,
            data,
            &decrypter.session_key,
            &decrypter.edata@[0],
            r,
        );
    }
}

/// Each recipient alone recovers a message that was encrypted to public keys: where the
/// session keys that `encrypt` makes name their keys by `ids`, a secret key that answers
/// to the identifier of one of them, and to no other, gives a decrypter for one packet
/// that gives the message, and the identifier of that recipient.
pub proof fn law_each_recipient_opens<'a, K, E, P, G, S, D, O>(
    m: MessageModel,
    session_key: &[u8],
    alg: SymmetricKeyAlgorithm,
    pkeys: Seq<&K>,
    ids: Seq<KeyId>,
    encrypt: E,
    protect: P,
    sent: Message,
    received: Message,
    i: int,
    key: &SignedSecretKey<S>,
    key_pw: &G,
    decrypt: D,
    open: O,
    opened: Result<(MessageDecrypter<'a>, Vec<KeyId>), Error>,
    r: Option<Result<Message, Error>>,
) where
    E: Fn(&[u8], SymmetricKeyAlgorithm, &K) -> Result<PublicKeyEncryptedSessionKey, Error>,
    P: Fn(SymmetricKeyAlgorithm, &[u8], &[u8]) -> Result<SymEncryptedProtectedData, Error>,
    D: Fn(&SecretKey<S>, &G, &Vec<u8>) -> Result<(Vec<u8>, SymmetricKeyAlgorithm), Error>,
    O: Fn(SymmetricKeyAlgorithm, &Vec<u8>, &Edata) -> Result<Vec<u8>, Error>,

    requires
        m.comes_back(),
        data_opens(protect, open, alg, session_key),
        names_keys(encrypt, session_key, alg, pkeys, ids),
        sealed_to_keys(m, session_key, alg, pkeys, encrypt, protect, Ok(sent)),
        received@ == sent@,
        0 <= i < ids.len(),
        key.with_id(ids[i]) is Some,
        forall|j: int|
            0 <= j < ids.len() && key.with_id(#[trigger] ids[j]) is Some ==> ids[j] == ids[i],
        forall|got: Result<(Vec<u8>, SymmetricKeyAlgorithm), Error>| #[trigger]
            got_with(encrypt, decrypt, session_key, alg, pkeys, key_pw, key, got)
                ==> is_session_key(got, session_key, alg),
        unlocked(received.encrypted_part(), seq![key], key_pw, decrypt, opened),
    ensures
        opened matches Ok((d, found)) && found@ == seq![ids[i]] && d.pos == 0 && d.edata@.len()
            == 1 && (packet_opened(d.alg, &d.session_key, &d.edata@[0], open, r) ==> (r matches Some(
            Ok(x),
        ) && x@ == m)),
{
    law_recipients_are_those_encrypted_to(
        m,
        session_key,
        alg,
        pkeys,
        encrypt,
        protect,
        sent,
        ids,
    );
    let keys = seq![key];
    assert(keys[0].with_id(received@.recipients()[i]) is Some);
    law_keys_round_trip(
        m,
        session_key,
        alg,
        pkeys,
        encrypt,
        protect,
        sent,
        received,
        keys,
        0,
        key_pw,
        decrypt,
        open,
        opened,
        r,
    );
    let esk = received.encrypted_part()->Some_0.0;
    law_fitting_iff_recipient(*key, esk);
    assert(received@.recipients() == pkesk_ids(esk_models(esk)));
    let packet = fitting(*key, esk)->Some_0.0;
    let j = choose|j: int| 0 <= j < ids.len() && ids[j] == packet.id;
    assert(key.with_id(ids[j]) is Some);
}

} // verus!
