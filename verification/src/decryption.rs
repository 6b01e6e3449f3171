//! Decrypting a message: which keys fit it, which session key they agree on, and what
//! the encrypted data holds.
//!
//! The ciphers themselves are the caller's: they are handed in as functions. What is
//! settled here is what they are given, in which order, and what becomes of their
//! results.
use crate::encrypted::{Edata, Esk};
use crate::errors::Error;
use crate::grammar::message_of;
use crate::message::{esk_models, Message, MessageModel};
use crate::packet::{PacketModel, PublicKeyEncryptedSessionKey, SymKeyEncryptedSessionKey};
use crate::session_key::SymmetricKeyAlgorithm;
use crate::types::KeyId;
use vstd::prelude::*;
use vstd::slice::slice_to_vec;

verus! {

/// A secret key: the identifier that messages name it by, and whatever the caller
/// decrypts with.
pub struct SecretKey<S> {
    pub key_id: KeyId,
    pub secret: S,
}

/// A secret key with its subkeys.
pub struct SignedSecretKey<S> {
    pub primary_key: SecretKey<S>,
    pub secret_subkeys: Vec<SecretKey<S>>,
}

/// The keys that session keys are encrypted to, in their order.
pub open spec fn pkesk_ids(esk: Seq<PacketModel>) -> Seq<KeyId> {
    esk.filter(|p: PacketModel| p is PublicKeyEncryptedSessionKey).map_values(
        |p: PacketModel| p->PublicKeyEncryptedSessionKey_0.id,
    )
}

/// One more session key adds the key that it is encrypted to, if it is to one.
pub proof fn lemma_pkesk_ids_push(esk: Seq<PacketModel>, p: PacketModel)
    ensures
        pkesk_ids(esk.push(p)) == match p {
            PacketModel::PublicKeyEncryptedSessionKey(k) => pkesk_ids(esk).push(k.id),
            _ => pkesk_ids(esk),
        },
{
    reveal(Seq::filter);
    assert(esk.push(p).drop_last() =~= esk);
    match p {
        PacketModel::PublicKeyEncryptedSessionKey(k) => {
            assert(pkesk_ids(esk.push(p)) =~= pkesk_ids(esk).push(k.id));
        },
        _ => {},
    }
}

/// The identifiers that references point to.
pub open spec fn ids_of(ids: Seq<&KeyId>) -> Seq<KeyId> {
    ids.map_values(|k: &KeyId| *k)
}

impl MessageModel {
    /// The keys that the message is encrypted to; none where it is not encrypted.
    pub open spec fn recipients(self) -> Seq<KeyId> {
        match self {
            MessageModel::Encrypted { esk, .. } => pkesk_ids(esk),
            _ => Seq::empty(),
        }
    }
}

/// The first of the keys that has the given identifier.
pub open spec fn first_with_id<S>(keys: Seq<SecretKey<S>>, id: KeyId) -> Option<SecretKey<S>>
    decreases keys.len(),
{
    if keys.len() == 0 {
        None
    } else if keys[0].key_id == id {
        Some(keys[0])
    } else {
        first_with_id(keys.skip(1), id)
    }
}

impl<S> SignedSecretKey<S> {
    /// The key with the given identifier: the primary key before any subkey, and the
    /// subkeys in their order.
    pub open spec fn with_id(self, id: KeyId) -> Option<SecretKey<S>> {
        if self.primary_key.key_id == id {
            Some(self.primary_key)
        } else {
            first_with_id(self.secret_subkeys@, id)
        }
    }
}

/// The first session key that is encrypted to the key or to one of its subkeys, and
/// the one that it is encrypted to.
pub open spec fn fitting<S>(key: SignedSecretKey<S>, esk: Seq<Esk>) -> Option<
    (PublicKeyEncryptedSessionKey, SecretKey<S>),
>
    decreases esk.len(),
{
    if esk.len() == 0 {
        None
    } else {
        match esk[0] {
            Esk::PublicKeyEncryptedSessionKey(k) => match key.with_id(k.id) {
                Some(found) => Some((k, found)),
                None => fitting(key, esk.skip(1)),
            },
            _ => fitting(key, esk.skip(1)),
        }
    }
}

/// What `fitting` gives for each of the keys that fits at all, in their order.
pub open spec fn all_fitting<S>(keys: Seq<&SignedSecretKey<S>>, esk: Seq<Esk>) -> Seq<
    (PublicKeyEncryptedSessionKey, SecretKey<S>),
>
    decreases keys.len(),
{
    if keys.len() == 0 {
        Seq::empty()
    } else {
        let front = all_fitting(keys.drop_last(), esk);
        match fitting(*keys.last(), esk) {
            Some(x) => front.push(x),
            None => front,
        }
    }
}

/// The results of decrypting session keys that are good ones, each with the identifier
/// of the key that it was decrypted with.
pub open spec fn good_keys<S>(
    pairs: Seq<(PublicKeyEncryptedSessionKey, SecretKey<S>)>,
    results: Seq<Result<(Vec<u8>, SymmetricKeyAlgorithm), Error>>,
) -> Seq<(KeyId, Seq<u8>, SymmetricKeyAlgorithm)>
    decreases results.len(),
{
    if results.len() == 0 {
        Seq::empty()
    } else {
        let front = good_keys(pairs, results.drop_last());
        match results.last() {
            Ok((key, alg)) => front.push((pairs[results.len() - 1].1.key_id, key@, alg)),
            Err(_) => front,
        }
    }
}

/// What decrypted session keys come to: there must be one, and all must be the same.
/// Given are then the session key and the identifiers of the keys that gave it.
pub open spec fn agreed(found: Seq<(KeyId, Seq<u8>, SymmetricKeyAlgorithm)>) -> Result<
    (Seq<u8>, SymmetricKeyAlgorithm, Seq<KeyId>),
    Error,
> {
    if found.len() == 0 {
        Err(Error::SessionKeyNotDecrypted)
    } else if exists|i: int|
        0 <= i < found.len() && ((#[trigger] found[i]).1 != found[0].1 || found[i].2
            != found[0].2) {
        Err(Error::InconsistentSessionKeys)
    } else {
        Ok(
            (
                found[0].1,
                found[0].2,
                found.map_values(|f: (KeyId, Seq<u8>, SymmetricKeyAlgorithm)| f.0),
            ),
        )
    }
}

/// What decrypted session keys, as they came, stand for.
pub open spec fn found_models(
    found: Seq<(KeyId, (Vec<u8>, SymmetricKeyAlgorithm))>,
) -> Seq<(KeyId, Seq<u8>, SymmetricKeyAlgorithm)> {
    found.map_values(
        |f: (KeyId, (Vec<u8>, SymmetricKeyAlgorithm))| (f.0, f.1.0@, f.1.1),
    )
}

/// The first session key that is encrypted with a password.
pub open spec fn first_skesk(esk: Seq<Esk>) -> Option<SymKeyEncryptedSessionKey>
    decreases esk.len(),
{
    if esk.len() == 0 {
        None
    } else {
        match esk[0] {
            Esk::SymKeyEncryptedSessionKey(k) => Some(k),
            _ => first_skesk(esk.skip(1)),
        }
    }
}

impl Message {
    /// The encrypted part of the message: its session keys and its data, under any
    /// signatures.
    pub open spec fn encrypted_part(&self) -> Option<(Seq<Esk>, Seq<Edata>)>
        decreases self,
    {
        match self {
            Message::Encrypted { esk, edata } => Some((esk@, edata@)),
            Message::Signed { message: Some(m), .. } => m.encrypted_part(),
            _ => None,
        }
    }
}

/// Decrypts the data of a message, packet by packet.
pub struct MessageDecrypter<'a> {
    pub session_key: Vec<u8>,
    pub alg: SymmetricKeyAlgorithm,
    pub edata: &'a Vec<Edata>,
    /// How many packets have been decrypted.
    pub pos: usize,
}

/// What decrypting one packet of data comes to: the message that its content holds.
pub open spec fn opened_data(
    plain: Result<Vec<u8>, Error>,
    r: Option<Result<Message, Error>>,
) -> bool {
    match plain {
        Ok(octets) => match message_of(octets@) {
            Ok(m) => r matches Some(Ok(x)) && x@ == m,
            Err(e) => r == Some(Err::<Message, Error>(e)),
        },
        Err(e) => r == Some(Err::<Message, Error>(e)),
    }
}

/// What decrypting one packet of data with `open` comes to.
pub open spec fn packet_opened<D>(
    alg: SymmetricKeyAlgorithm,
    session_key: &Vec<u8>,
    packet: &Edata,
    open: D,
    r: Option<Result<Message, Error>>,
) -> bool where D: Fn(SymmetricKeyAlgorithm, &Vec<u8>, &Edata) -> Result<Vec<u8>, Error> {
    exists|plain: Result<Vec<u8>, Error>|
        #[trigger] call_ensures(open, (alg, session_key, packet), plain) && opened_data(plain, r)
}

impl<'a> MessageDecrypter<'a> {
    /// A decrypter for data that is encrypted under a session key.
    pub fn new(
        session_key: Vec<u8>,
        alg: SymmetricKeyAlgorithm,
        edata: &'a Vec<Edata>,
    ) -> (decrypter: Self)
        ensures
            decrypter.session_key == session_key,
            decrypter.alg == alg,
            decrypter.edata == edata,
            decrypter.pos == 0,
    {
        MessageDecrypter { session_key, alg, edata, pos: 0 }
    }

    /// Decrypts the next packet of data with `open`, and reads the message in it; `None`
    /// after the last packet.
    pub fn next<D>(&mut self, open: D) -> (r: Option<Result<Message, Error>>) where
        D: Fn(SymmetricKeyAlgorithm, &Vec<u8>, &Edata) -> Result<Vec<u8>, Error>,

        requires
            forall|a: SymmetricKeyAlgorithm, k: &Vec<u8>, e: &Edata|
                call_requires(open, (a, k, e)),
        ensures
            final(self).session_key == old(self).session_key,
            final(self).alg == old(self).alg,
            final(self).edata == old(self).edata,
            if old(self).pos < old(self).edata@.len() {
                &&& final(self).pos == old(self).pos + 1
                &&& packet_opened(
                    old(self).alg,
                    &old(self).session_key,
                    &old(self).edata@[old(self).pos as int],
                    open,
                    r,
                )
            } else {
                r is None && final(self).pos == old(self).pos
            },
    {
        if self.pos >= self.edata.len() {
            return None;
        }
        let packet = &self.edata[self.pos];
        self.pos = self.pos + 1;
        match open(self.alg, &self.session_key, packet) {
            Ok(octets) => Some(Message::from_bytes(octets.as_slice())),
            Err(e) => Some(Err(e)),
        }
    }
}

/// Whether two lists of octets are the same.
fn same_octets(a: &Vec<u8>, b: &Vec<u8>) -> (r: bool)
    ensures
        r == (a@ == b@),
{
    if a.len() != b.len() {
        return false;
    }
    for i in 0..a.len()
        invariant
            a@.len() == b@.len(),
            forall|j: int| 0 <= j < i ==> a@[j] == b@[j],
    {
        if a[i] != b[i] {
            return false;
        }
    }
    assert(a@ =~= b@);
    true
}

/// Decides what decrypted session keys come to.
pub fn agree_on_session_key(found: Vec<(KeyId, (Vec<u8>, SymmetricKeyAlgorithm))>) -> (r: Result<
    (Vec<u8>, SymmetricKeyAlgorithm, Vec<KeyId>),
    Error,
>)
    ensures
        match agreed(found_models(found@)) {
            Ok((key, alg, ids)) => r matches Ok((k, a, i)) && k@ == key && a == alg && i@ == ids,
            Err(e) => r == Err::<(Vec<u8>, SymmetricKeyAlgorithm, Vec<KeyId>), Error>(e),
        },
{
    let ghost models = found_models(found@);
    if found.len() == 0 {
        return Err(Error::SessionKeyNotDecrypted);
    }
    let mut ids: Vec<KeyId> = Vec::new();
    for i in 0..found.len()
        invariant
            found@.len() > 0,
            models == found_models(found@),
            ids@.len() == i,
            forall|j: int|
                0 <= j < i ==> (#[trigger] models[j]).1 == models[0].1 && models[j].2
                    == models[0].2 && ids@[j] == models[j].0,
    {
        let entry = &found[i];
        let first = &found[0];
        assert(models[i as int] == (entry.0, entry.1.0@, entry.1.1));
        assert(models[0] == (first.0, first.1.0@, first.1.1));
        if !same_octets(&entry.1.0, &first.1.0) || entry.1.1 != first.1.1 {
            return Err(Error::InconsistentSessionKeys);
        }
        ids.push(entry.0);
    }
    let key = slice_to_vec(found[0].1.0.as_slice());
    let alg = found[0].1.1;
    assert(models[0] == (found@[0].0, found@[0].1.0@, found@[0].1.1));
    assert(ids@ =~= models.map_values(|f: (KeyId, Seq<u8>, SymmetricKeyAlgorithm)| f.0));
    Ok((key, alg, ids))
}

/// Finds the first of the keys that has the given identifier.
fn find_with_id<'a, S>(keys: &'a Vec<SecretKey<S>>, id: KeyId) -> (r: Option<&'a SecretKey<S>>)
    ensures
        match first_with_id(keys@, id) {
            Some(k) => r == Some(&k),
            None => r is None,
        },
{
    assert(keys@.skip(0) =~= keys@);
    for i in 0..keys.len()
        invariant
            first_with_id(keys@.skip(i as int), id) == first_with_id(keys@, id),
    {
        assert(keys@.skip(i as int).skip(1) =~= keys@.skip(i + 1));
        if keys[i].key_id == id {
            return Some(&keys[i]);
        }
    }
    assert(keys@.skip(keys@.len() as int) =~= Seq::empty());
    None
}

/// Finds the first session key that is encrypted to the key or to one of its subkeys,
/// and the one that it is encrypted to.
pub fn find_fitting<'a, S>(key: &'a SignedSecretKey<S>, esk: &'a Vec<Esk>) -> (r: Option<
    (&'a PublicKeyEncryptedSessionKey, &'a SecretKey<S>),
>)
    ensures
        match fitting(*key, esk@) {
            Some((k, s)) => r == Some((&k, &s)),
            None => r is None,
        },
{
    assert(esk@.skip(0) =~= esk@);
    for i in 0..esk.len()
        invariant
            fitting(*key, esk@.skip(i as int)) == fitting(*key, esk@),
    {
        assert(esk@.skip(i as int).skip(1) =~= esk@.skip(i + 1));
        match &esk[i] {
            Esk::PublicKeyEncryptedSessionKey(k) => {
                let id = *k.id();
                if key.primary_key.key_id == id {
                    return Some((k, &key.primary_key));
                }
                if let Some(subkey) = find_with_id(&key.secret_subkeys, id) {
                    return Some((k, subkey));
                }
            },
            _ => {},
        }
    }
    assert(esk@.skip(esk@.len() as int) =~= Seq::empty());
    None
}

/// Whether these are the results of decrypting the session keys of `pairs`.
pub open spec fn keys_decrypted<G, S, D>(
    pairs: Seq<(PublicKeyEncryptedSessionKey, SecretKey<S>)>,
    key_pw: &G,
    decrypt: D,
    results: Seq<Result<(Vec<u8>, SymmetricKeyAlgorithm), Error>>,
) -> bool where
    D: Fn(&SecretKey<S>, &G, &Vec<u8>) -> Result<(Vec<u8>, SymmetricKeyAlgorithm), Error>,
 {
    &&& results.len() == pairs.len()
    &&& forall|i: int|
        0 <= i < results.len() ==> call_ensures(
            decrypt,
            (&pairs[i].1, key_pw, &pairs[i].0.mpis),
            #[trigger] results[i],
        )
}

/// A key fits if and only if it, or one of its subkeys, is among the keys that session
/// keys are encrypted to; and what is found is such a session key and such a key.
pub proof fn law_fitting_iff_recipient<S>(key: SignedSecretKey<S>, esk: Seq<Esk>)
    ensures
        fitting(key, esk) is Some <==> exists|i: int|
            0 <= i < pkesk_ids(esk_models(esk)).len() && key.with_id(
                #[trigger] pkesk_ids(esk_models(esk))[i],
            ) is Some,
        fitting(key, esk) matches Some((k, s)) ==> {
            &&& esk.contains(Esk::PublicKeyEncryptedSessionKey(k))
            &&& key.with_id(k.id) == Some(s)
            &&& s.key_id == k.id
            &&& pkesk_ids(esk_models(esk)).contains(k.id)
        },
    decreases esk.len(),
{
    let ids = pkesk_ids(esk_models(esk));
    if esk.len() == 0 {
        reveal(Seq::filter);
        assert(esk_models(esk) =~= Seq::empty());
        assert(ids.len() == 0);
    } else {
        let tail = esk.skip(1);
        let tail_ids = pkesk_ids(esk_models(tail));
        law_fitting_iff_recipient(key, tail);
        lemma_pkesk_ids_cons(esk[0]@, esk_models(tail));
        assert(esk_models(esk) =~= seq![esk[0]@] + esk_models(tail));
        assert forall|e: Esk| tail.contains(e) implies esk.contains(e) by {
            let j = choose|j: int| 0 <= j < tail.len() && tail[j] == e;
            assert(esk[j + 1] == e);
        }
        assert(esk.contains(esk[0]));
        match esk[0] {
            Esk::PublicKeyEncryptedSessionKey(k) => {
                assert(ids =~= seq![k.id] + tail_ids);
                assert(ids[0] == k.id);
                assert forall|j: int| 0 <= j < tail_ids.len() implies ids[j + 1]
                    == #[trigger] tail_ids[j] by {}
                if let Some(found) = key.with_id(k.id) {
                    lemma_first_with_id(key.secret_subkeys@, k.id);
                } else {
                    if let Some((k2, _)) = fitting(key, tail) {
                        let j = choose|j: int| 0 <= j < tail_ids.len() && tail_ids[j] == k2.id;
                        assert(ids[j + 1] == k2.id);
                    }
                    if exists|i: int|
                        0 <= i < ids.len() && key.with_id(#[trigger] ids[i]) is Some {
                        let i = choose|i: int|
                            0 <= i < ids.len() && key.with_id(#[trigger] ids[i]) is Some;
                        assert(i > 0);
                        assert(tail_ids[i - 1] == ids[i]);
                    }
                }
            },
            _ => {
                assert(ids == tail_ids);
            },
        }
    }
}

proof fn lemma_first_with_id<S>(keys: Seq<SecretKey<S>>, id: KeyId)
    ensures
        first_with_id(keys, id) matches Some(k) ==> k.key_id == id,
    decreases keys.len(),
{
    if keys.len() > 0 {
        lemma_first_with_id(keys.skip(1), id);
    }
}

proof fn lemma_pkesk_ids_cons(p: PacketModel, esk: Seq<PacketModel>)
    ensures
        pkesk_ids(seq![p] + esk) == match p {
            PacketModel::PublicKeyEncryptedSessionKey(k) => seq![k.id] + pkesk_ids(esk),
            _ => pkesk_ids(esk),
        },
    decreases esk.len(),
{
    if esk.len() == 0 {
        lemma_pkesk_ids_push(Seq::empty(), p);
        assert(seq![p] + esk =~= Seq::<PacketModel>::empty().push(p));
        assert(pkesk_ids(Seq::empty()) =~= Seq::empty()) by {
            reveal(Seq::filter);
        }
        assert(esk =~= Seq::empty());
        assert(pkesk_ids(seq![p] + esk) =~= match p {
            PacketModel::PublicKeyEncryptedSessionKey(k) => seq![k.id] + pkesk_ids(esk),
            _ => pkesk_ids(esk),
        });
    } else {
        let front = esk.drop_last();
        lemma_pkesk_ids_cons(p, front);
        lemma_pkesk_ids_push(front, esk.last());
        lemma_pkesk_ids_push(seq![p] + front, esk.last());
        assert(esk =~= front.push(esk.last()));
        assert(seq![p] + esk =~= (seq![p] + front).push(esk.last()));
        match p {
            PacketModel::PublicKeyEncryptedSessionKey(k) => {
                assert(pkesk_ids(seq![p] + esk) =~= seq![k.id] + pkesk_ids(esk));
            },
            _ => {},
        }
    }
}

proof fn lemma_all_fitting_ids<S>(keys: Seq<&SignedSecretKey<S>>, esk: Seq<Esk>, i: int)
    requires
        0 <= i < all_fitting(keys, esk).len(),
    ensures
        pkesk_ids(esk_models(esk)).contains(all_fitting(keys, esk)[i].1.key_id),
    decreases keys.len(),
{
    if keys.len() > 0 {
        law_fitting_iff_recipient(*keys.last(), esk);
        let front = all_fitting(keys.drop_last(), esk);
        if i < front.len() {
            lemma_all_fitting_ids(keys.drop_last(), esk, i);
        }
    }
}

proof fn lemma_good_keys_ids<S>(
    pairs: Seq<(PublicKeyEncryptedSessionKey, SecretKey<S>)>,
    results: Seq<Result<(Vec<u8>, SymmetricKeyAlgorithm), Error>>,
    i: int,
)
    requires
        results.len() <= pairs.len(),
        0 <= i < good_keys(pairs, results).len(),
    ensures
        exists|j: int|
            0 <= j < pairs.len() && (#[trigger] pairs[j]).1.key_id == good_keys(
                pairs,
                results,
            )[i].0,
    decreases results.len(),
{
    if results.len() > 0 {
        let front = good_keys(pairs, results.drop_last());
        if i < front.len() {
            lemma_good_keys_ids(pairs, results.drop_last(), i);
        } else {
            assert(pairs[results.len() - 1].1.key_id == good_keys(pairs, results)[i].0);
        }
    }
}

/// The identifiers that decryption gives are of keys that the message is encrypted to.
pub proof fn law_agreed_ids_are_recipients<S>(
    keys: Seq<&SignedSecretKey<S>>,
    esk: Seq<Esk>,
    results: Seq<Result<(Vec<u8>, SymmetricKeyAlgorithm), Error>>,
)
    requires
        results.len() <= all_fitting(keys, esk).len(),
    ensures
        agreed(good_keys(all_fitting(keys, esk), results)) matches Ok((_, _, ids)) ==> forall|i: int|
            0 <= i < ids.len() ==> pkesk_ids(esk_models(esk)).contains(#[trigger] ids[i]),
{
    let pairs = all_fitting(keys, esk);
    let found = good_keys(pairs, results);
    if let Ok((_, _, ids)) = agreed(found) {
        assert forall|i: int| 0 <= i < ids.len() implies pkesk_ids(esk_models(esk)).contains(
            #[trigger] ids[i],
        ) by {
            lemma_good_keys_ids(pairs, results, i);
            let j = choose|j: int|
                0 <= j < pairs.len() && (#[trigger] pairs[j]).1.key_id == found[i].0;
            lemma_all_fitting_ids(keys, esk, j);
        }
    }
}

/// Decryption succeeds whenever one of the fitting keys gives the session key and none
/// gives another; keys that fail do no harm.
pub proof fn law_one_good_key_suffices<S>(
    pairs: Seq<(PublicKeyEncryptedSessionKey, SecretKey<S>)>,
    results: Seq<Result<(Vec<u8>, SymmetricKeyAlgorithm), Error>>,
    key: Seq<u8>,
    alg: SymmetricKeyAlgorithm,
)
    requires
        results.len() <= pairs.len(),
        exists|i: int| 0 <= i < results.len() && (#[trigger] results[i]) is Ok,
        forall|i: int|
            0 <= i < results.len() ==> ((#[trigger] results[i]) matches Ok((k, a)) ==> k@ == key
                && a == alg),
    ensures
        agreed(good_keys(pairs, results)) matches Ok((k, a, ids)) && k == key && a == alg
            && ids.len() > 0,
{
    lemma_good_keys_same(pairs, results, key, alg);
}

proof fn lemma_good_keys_same<S>(
    pairs: Seq<(PublicKeyEncryptedSessionKey, SecretKey<S>)>,
    results: Seq<Result<(Vec<u8>, SymmetricKeyAlgorithm), Error>>,
    key: Seq<u8>,
    alg: SymmetricKeyAlgorithm,
)
    requires
        forall|i: int|
            0 <= i < results.len() ==> ((#[trigger] results[i]) matches Ok((k, a)) ==> k@ == key
                && a == alg),
    ensures
        forall|i: int|
            0 <= i < good_keys(pairs, results).len() ==> (#[trigger] good_keys(
                pairs,
                results,
            )[i]).1 == key && good_keys(pairs, results)[i].2 == alg,
        (exists|i: int| 0 <= i < results.len() && (#[trigger] results[i]) is Ok) ==> good_keys(
            pairs,
            results,
        ).len() > 0,
    decreases results.len(),
{
    if results.len() > 0 {
        let front = results.drop_last();
        assert forall|i: int| 0 <= i < front.len() implies ((#[trigger] front[i]) matches Ok(
            (k, a),
        ) ==> k@ == key && a == alg) by {
            assert(front[i] == results[i]);
        }
        lemma_good_keys_same(pairs, front, key, alg);
        assert(results.last() == results[results.len() - 1]);
        if exists|i: int| 0 <= i < results.len() && (#[trigger] results[i]) is Ok {
            let i = choose|i: int| 0 <= i < results.len() && (#[trigger] results[i]) is Ok;
            if i < front.len() {
                assert(front[i] is Ok);
            }
        }
    }
}

/// What decrypting a message with keys comes to.
pub open spec fn unlocked<'a, G, S, D>(
    part: Option<(Seq<Esk>, Seq<Edata>)>,
    keys: Seq<&SignedSecretKey<S>>,
    key_pw: &G,
    decrypt: D,
    r: Result<(MessageDecrypter<'a>, Vec<KeyId>), Error>,
) -> bool where
    D: Fn(&SecretKey<S>, &G, &Vec<u8>) -> Result<(Vec<u8>, SymmetricKeyAlgorithm), Error>,
 {
    match part {
        None => r == Err::<(MessageDecrypter<'a>, Vec<KeyId>), Error>(Error::NotEncrypted),
        Some((esk, edata)) => {
            let pairs = all_fitting(keys, esk);
            if pairs.len() == 0 {
                r == Err::<(MessageDecrypter<'a>, Vec<KeyId>), Error>(Error::MissingKey)
            } else {
                exists|results: Seq<Result<(Vec<u8>, SymmetricKeyAlgorithm), Error>>|
                    {
                        &&& #[trigger] keys_decrypted(pairs, key_pw, decrypt, results)
                        &&& match agreed(good_keys(pairs, results)) {
                            Ok((key, alg, ids)) => {
                                &&& r matches Ok((d, i))
                                &&& d.session_key@ == key
                                &&& d.alg == alg
                                &&& d.edata@ == edata
                                &&& d.pos == 0
                                &&& i@ == ids
                            },
                            Err(e) => r == Err::<(MessageDecrypter<'a>, Vec<KeyId>), Error>(e),
                        }
                    }
            }
        },
    }
}

/// What decrypting a message with a password comes to.
pub open spec fn unlocked_with_password<'a, F, D>(
    part: Option<(Seq<Esk>, Seq<Edata>)>,
    msg_pw: F,
    decrypt: D,
    r: Result<MessageDecrypter<'a>, Error>,
) -> bool where
    D: FnOnce(&SymKeyEncryptedSessionKey, F) -> Result<(Vec<u8>, SymmetricKeyAlgorithm), Error>,
 {
    match part {
        None => r == Err::<MessageDecrypter<'a>, Error>(Error::NotEncrypted),
        Some((esk, edata)) => match first_skesk(esk) {
            None => r == Err::<MessageDecrypter<'a>, Error>(Error::NotPasswordProtected),
            Some(skesk) => exists|key: Result<(Vec<u8>, SymmetricKeyAlgorithm), Error>|
                {
                    &&& #[trigger] call_ensures(decrypt, (&skesk, msg_pw), key)
                    &&& match key {
                        Ok((k, alg)) => {
                            &&& r matches Ok(d)
                            &&& d.session_key == k
                            &&& d.alg == alg
                            &&& d.edata@ == edata
                            &&& d.pos == 0
                        },
                        Err(e) => r == Err::<MessageDecrypter<'a>, Error>(e),
                    }
                },
        },
    }
}

impl Message {
    /// The keys that the message is encrypted to; none where it is not encrypted.
    pub fn get_recipients(&self) -> (r: Vec<&KeyId>)
        ensures
            ids_of(r@) == self@.recipients(),
    {
        let mut ids: Vec<&KeyId> = Vec::new();
        match self {
            Message::Encrypted { esk, .. } => {
                let ghost models = esk_models(esk@);
                assert(ids_of(ids@) =~= pkesk_ids(models.take(0))) by {
                    reveal(Seq::filter);
                }
                for i in 0..esk.len()
                    invariant
                        models == esk_models(esk@),
                        ids_of(ids@) == pkesk_ids(models.take(i as int)),
                {
                    let ghost before = ids@;
                    proof {
                        lemma_pkesk_ids_push(models.take(i as int), models[i as int]);
                        assert(models.take(i + 1) =~= models.take(i as int).push(
                            models[i as int],
                        ));
                    }
                    match &esk[i] {
                        Esk::PublicKeyEncryptedSessionKey(k) => {
                            ids.push(k.id());
                            assert(ids_of(ids@) =~= ids_of(before).push(k.id));
                        },
                        _ => {},
                    }
                }
                assert(models.take(models.len() as int) =~= models);
            },
            _ => {
                assert(ids_of(ids@) =~= Seq::empty());
            },
        }
        ids
    }

    /// Decrypts the message with the given keys: `decrypt` decrypts the session key with
    /// each of the keys that fits. Given are a decrypter for the data, and the
    /// identifiers of the keys that gave the session key.
    pub fn decrypt<'a, F, G, S, D>(
        &'a self,
        msg_pw: F,
        key_pw: &G,
        keys: &[&SignedSecretKey<S>],
        decrypt: D,
    ) -> (r: Result<(MessageDecrypter<'a>, Vec<KeyId>), Error>) where
        D: Fn(&SecretKey<S>, &G, &Vec<u8>) -> Result<(Vec<u8>, SymmetricKeyAlgorithm), Error>,

        requires
            forall|s: &SecretKey<S>, m: &Vec<u8>| call_requires(decrypt, (s, key_pw, m)),
        ensures
            unlocked(self.encrypted_part(), keys@, key_pw, decrypt, r),
            r matches Ok((_, ids)) ==> forall|i: int|
                0 <= i < ids@.len() ==> pkesk_ids(
                    esk_models(self.encrypted_part()->Some_0.0),
                ).contains(#[trigger] ids@[i]),
        decreases self,
    {
        match self {
            Message::Compressed(_) | Message::Literal(_) => Err(Error::NotEncrypted),
            Message::Signed { message, .. } => match message {
                Some(message) => message.decrypt(msg_pw, key_pw, keys, decrypt),
                None => Err(Error::NotEncrypted),
            },
            Message::Encrypted { esk, edata } => {
                let mut valid_keys: Vec<(&PublicKeyEncryptedSessionKey, &SecretKey<S>)> =
                    Vec::new();
                let ghost pairs = all_fitting(keys@, esk@);
                for i in 0..keys.len()
                    invariant
                        valid_keys@.len() == all_fitting(keys@.take(i as int), esk@).len(),
                        forall|j: int|
                            0 <= j < valid_keys@.len() ==> (#[trigger] valid_keys@[j]) == (
                                &all_fitting(keys@.take(i as int), esk@)[j].0,
                                &all_fitting(keys@.take(i as int), esk@)[j].1,
                            ),
                {
                    assert(keys@.take(i + 1).drop_last() =~= keys@.take(i as int));
                    if let Some(found) = find_fitting(keys[i], esk) {
                        valid_keys.push(found);
                    }
                }
                assert(keys@.take(keys@.len() as int) =~= keys@);
                if valid_keys.len() == 0 {
                    return Err(Error::MissingKey);
                }
                let mut session_keys: Vec<(KeyId, (Vec<u8>, SymmetricKeyAlgorithm))> = Vec::new();
                let ghost mut results: Seq<Result<(Vec<u8>, SymmetricKeyAlgorithm), Error>> =
                    Seq::empty();
                assert(found_models(session_keys@) =~= good_keys(pairs, results));
                for i in 0..valid_keys.len()
                    invariant
                        forall|s: &SecretKey<S>, m: &Vec<u8>|
                            call_requires(decrypt, (s, key_pw, m)),
                        valid_keys@.len() == pairs.len(),
                        forall|j: int|
                            0 <= j < valid_keys@.len() ==> (#[trigger] valid_keys@[j]) == (
                                &pairs[j].0,
                                &pairs[j].1,
                            ),
                        results.len() == i,
                        forall|j: int|
                            0 <= j < i ==> call_ensures(
                                decrypt,
                                (&pairs[j].1, key_pw, &pairs[j].0.mpis),
                                #[trigger] results[j],
                            ),
                        found_models(session_keys@) == good_keys(pairs, results),
                {
                    let (packet, key) = valid_keys[i];
                    let result = decrypt(key, key_pw, packet.mpis());
                    let ghost before = results;
                    let ghost found_before = session_keys@;
                    proof {
                        results = results.push(result);
                        assert(results.drop_last() =~= before);
                    }
                    match result {
                        Ok(session_key) => {
                            session_keys.push((key.key_id, session_key));
                            assert(found_models(session_keys@) =~= found_models(
                                found_before,
                            ).push((key.key_id, session_key.0@, session_key.1)));
                        },
                        Err(_) => {},
                    }
                }
                assert(keys_decrypted(pairs, key_pw, decrypt, results));
                proof {
                    law_agreed_ids_are_recipients(keys@, esk@, results);
                }
                match agree_on_session_key(session_keys) {
                    Ok((session_key, alg, ids)) => Ok(
                        (MessageDecrypter::new(session_key, alg, edata), ids),
                    ),
                    Err(e) => Err(e),
                }
            },
        }
    }

    /// Decrypts the message with a password: `decrypt` decrypts the first session key
    /// that is encrypted with one. Given is a decrypter for the data.
    pub fn decrypt_with_password<'a, F, D>(&'a self, msg_pw: F, decrypt: D) -> (r: Result<
        MessageDecrypter<'a>,
        Error,
    >) where
        D: FnOnce(&SymKeyEncryptedSessionKey, F) -> Result<(Vec<u8>, SymmetricKeyAlgorithm), Error>,

        requires
            forall|k: &SymKeyEncryptedSessionKey| call_requires(decrypt, (k, msg_pw)),
        ensures
            unlocked_with_password(self.encrypted_part(), msg_pw, decrypt, r),
        decreases self,
    {
        match self {
            Message::Compressed(_) | Message::Literal(_) => Err(Error::NotEncrypted),
            Message::Signed { message, .. } => match message {
                Some(message) => message.decrypt_with_password(msg_pw, decrypt),
                None => Err(Error::NotEncrypted),
            },
            Message::Encrypted { esk, edata } => {
                match find_skesk(esk) {
                    None => Err(Error::NotPasswordProtected),
                    Some(skesk) => match decrypt(skesk, msg_pw) {
                        Ok((session_key, alg)) => Ok(
                            MessageDecrypter::new(session_key, alg, edata),
                        ),
                        Err(e) => Err(e),
                    },
                }
            },
        }
    }
}

/// Finds the first session key that is encrypted with a password.
fn find_skesk<'a>(esk: &'a Vec<Esk>) -> (r: Option<&'a SymKeyEncryptedSessionKey>)
    ensures
        match first_skesk(esk@) {
            Some(k) => r == Some(&k),
            None => r is None,
        },
{
    assert(esk@.skip(0) =~= esk@);
    for i in 0..esk.len()
        invariant
            first_skesk(esk@.skip(i as int)) == first_skesk(esk@),
    {
        assert(esk@.skip(i as int).skip(1) =~= esk@.skip(i + 1));
        match &esk[i] {
            Esk::SymKeyEncryptedSessionKey(k) => {
                return Some(k);
            },
            _ => {},
        }
    }
    assert(esk@.skip(esk@.len() as int) =~= Seq::empty());
    None
}

} // verus!
