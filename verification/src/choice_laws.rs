//! What the choice of keys for decrypting a message comes to, told by the fields of the
//! keys and of the packets.
use crate::decryption::{
    agreed, all_fitting, first_skesk, first_with_id, fitting, found_models, good_keys, ids_of,
    keys_decrypted,
    opened_data, packet_opened, pkesk_ids, unlocked, unlocked_with_password, MessageDecrypter,
    SecretKey, SignedSecretKey,
};
use crate::encrypted::{Edata, Esk};
use crate::errors::Error;
use crate::grammar::message_of;
use crate::message::{Message, MessageModel};
use crate::packet::{PacketModel, PublicKeyEncryptedSessionKey, SymKeyEncryptedSessionKey};
use crate::session_key::SymmetricKeyAlgorithm;
use crate::types::KeyId;
use vstd::prelude::*;

verus! {

/// Whether a key, or one of its subkeys, has the identifier.
pub open spec fn answers_to<S>(key: SignedSecretKey<S>, id: KeyId) -> bool {
    key.primary_key.key_id == id || exists|j: int|
        0 <= j < key.secret_subkeys@.len() && (#[trigger] key.secret_subkeys@[j]).key_id == id
}

proof fn lemma_first_with_id<S>(keys: Seq<SecretKey<S>>, id: KeyId)
    ensures
        match first_with_id(keys, id) {
            Some(k) => exists|j: int|
                {
                    &&& 0 <= j < keys.len()
                    &&& #[trigger] keys[j] == k
                    &&& k.key_id == id
                    &&& forall|i: int| 0 <= i < j ==> (#[trigger] keys[i]).key_id != id
                },
            None => forall|j: int| 0 <= j < keys.len() ==> (#[trigger] keys[j]).key_id != id,
        },
    decreases keys.len(),
{
    if keys.len() > 0 {
        let tail = keys.skip(1);
        lemma_first_with_id(tail, id);
        if keys[0].key_id == id {
            assert(keys[0] == keys[0]);
        } else {
            match first_with_id(tail, id) {
                Some(k) => {
                    let j = choose|j: int|
                        {
                            &&& 0 <= j < tail.len()
                            &&& #[trigger] tail[j] == k
                            &&& k.key_id == id
                            &&& forall|i: int| 0 <= i < j ==> (#[trigger] tail[i]).key_id != id
                        };
                    assert(keys[j + 1] == k);
                    assert forall|i: int| 0 <= i < j + 1 implies (#[trigger] keys[i]).key_id
                        != id by {
                        if i > 0 {
                            assert(tail[i - 1] == keys[i]);
                        }
                    }
                },
                None => {
                    assert forall|j: int| 0 <= j < keys.len() implies (#[trigger] keys[j]).key_id
                        != id by {
                        if j > 0 {
                            assert(tail[j - 1] == keys[j]);
                        }
                    }
                },
            }
        }
    }
}

/// The search for an identifier is complete: a key is found if and only if the primary
/// key or some subkey has it, wherever that subkey stands. The primary key is taken if it
/// has it, and else the first subkey that does.
pub proof fn law_every_subkey_is_searched<S>(key: SignedSecretKey<S>, id: KeyId)
    ensures
        key.with_id(id) is Some <==> (key.primary_key.key_id == id || exists|j: int|
            0 <= j < key.secret_subkeys@.len() && (#[trigger] key.secret_subkeys@[j]).key_id
                == id),
        key.primary_key.key_id == id ==> key.with_id(id) == Some(key.primary_key),
        key.primary_key.key_id != id ==> (key.with_id(id) matches Some(s) ==> exists|j: int|
            {
                &&& 0 <= j < key.secret_subkeys@.len()
                &&& #[trigger] key.secret_subkeys@[j] == s
                &&& s.key_id == id
                &&& forall|i: int|
                    0 <= i < j ==> (#[trigger] key.secret_subkeys@[i]).key_id != id
            }),
        key.with_id(key.primary_key.key_id) == Some(key.primary_key),
        forall|i: int|
            0 <= i < key.secret_subkeys@.len() ==> key.with_id(
                (#[trigger] key.secret_subkeys@[i]).key_id,
            ) is Some,
{
    lemma_first_with_id(key.secret_subkeys@, id);
    assert forall|i: int| 0 <= i < key.secret_subkeys@.len() implies key.with_id(
        (#[trigger] key.secret_subkeys@[i]).key_id,
    ) is Some by {
        lemma_first_with_id(key.secret_subkeys@, key.secret_subkeys@[i].key_id);
    }
}

/// A key fits a message if and only if some packet in it, wherever it stands, is encrypted
/// to the key or to one of its subkeys; and what is taken is the first such packet, and
/// the primary key or a subkey that the packet names.
pub proof fn law_first_fitting_packet_is_taken<S>(key: SignedSecretKey<S>, esk: Seq<Esk>)
    ensures
        match fitting(key, esk) {
            Some((k, s)) => {
                &&& exists|i: int|
                    {
                        &&& 0 <= i < esk.len()
                        &&& #[trigger] esk[i] == Esk::PublicKeyEncryptedSessionKey(k)
                        &&& forall|j: int|
                            0 <= j < i ==> ((#[trigger] esk[j]) matches
                                Esk::PublicKeyEncryptedSessionKey(p) ==> !answers_to(key, p.id))
                    }
                &&& s.key_id == k.id
                &&& s == key.primary_key || exists|j: int|
                    0 <= j < key.secret_subkeys@.len() && #[trigger] key.secret_subkeys@[j] == s
                &&& key.primary_key.key_id == k.id ==> s == key.primary_key
            },
            None => forall|j: int|
                0 <= j < esk.len() ==> ((#[trigger] esk[j]) matches
                    Esk::PublicKeyEncryptedSessionKey(p) ==> !answers_to(key, p.id)),
        },
    decreases esk.len(),
{
    if esk.len() > 0 {
        let tail = esk.skip(1);
        law_first_fitting_packet_is_taken(key, tail);
        if let Esk::PublicKeyEncryptedSessionKey(p) = esk[0] {
            law_every_subkey_is_searched(key, p.id);
        }
        if fitting(key, esk) is Some && fitting(key, seq![esk[0]]) is Some {
            lemma_single_packet(key, esk[0]);
            assert(esk[0] == Esk::PublicKeyEncryptedSessionKey(fitting(key, esk)->Some_0.0));
        } else {
            lemma_single_packet(key, esk[0]);
            match fitting(key, tail) {
                Some((k, s)) => {
                    let i = choose|i: int|
                        {
                            &&& 0 <= i < tail.len()
                            &&& #[trigger] tail[i] == Esk::PublicKeyEncryptedSessionKey(k)
                            &&& forall|j: int|
                                0 <= j < i ==> ((#[trigger] tail[j]) matches
                                    Esk::PublicKeyEncryptedSessionKey(p) ==> !answers_to(
                                    key,
                                    p.id,
                                ))
                        };
                    assert(esk[i + 1] == tail[i]);
                    assert forall|j: int| 0 <= j < i + 1 implies ((#[trigger] esk[j]) matches
                        Esk::PublicKeyEncryptedSessionKey(p) ==> !answers_to(key, p.id)) by {
                        if j > 0 {
                            assert(tail[j - 1] == esk[j]);
                        }
                    }
                },
                None => {
                    assert forall|j: int| 0 <= j < esk.len() implies ((#[trigger] esk[j]) matches
                        Esk::PublicKeyEncryptedSessionKey(p) ==> !answers_to(key, p.id)) by {
                        if j > 0 {
                            assert(tail[j - 1] == esk[j]);
                        }
                    }
                },
            }
        }
    }
}

/// One packet alone fits a key if and only if it names the key.
proof fn lemma_single_packet<S>(key: SignedSecretKey<S>, e: Esk)
    ensures
        fitting(key, seq![e]) is Some <==> (e matches Esk::PublicKeyEncryptedSessionKey(p)
            && answers_to(key, p.id)),
        fitting(key, seq![e]) matches Some((k, s)) ==> e == Esk::PublicKeyEncryptedSessionKey(k)
            && key.with_id(k.id) == Some(s),
{
    assert(seq![e].skip(1) =~= Seq::empty());
    assert(fitting(key, seq![e].skip(1)) is None);
    if let Esk::PublicKeyEncryptedSessionKey(p) = e {
        law_every_subkey_is_searched(key, p.id);
    }
}

/// The password packet is found wherever it stands: one is found if and only if the
/// message has one, and it is the first, with only packets for public keys before it.
pub proof fn law_first_password_packet_is_taken(esk: Seq<Esk>)
    ensures
        first_skesk(esk) is None <==> forall|i: int|
            0 <= i < esk.len() ==> !((#[trigger] esk[i]) is SymKeyEncryptedSessionKey),
        first_skesk(esk) matches Some(k) ==> exists|i: int|
            {
                &&& 0 <= i < esk.len()
                &&& #[trigger] esk[i] == Esk::SymKeyEncryptedSessionKey(k)
                &&& forall|j: int|
                    0 <= j < i ==> (#[trigger] esk[j]) is PublicKeyEncryptedSessionKey
            },
    decreases esk.len(),
{
    if esk.len() > 0 {
        let tail = esk.skip(1);
        law_first_password_packet_is_taken(tail);
        match esk[0] {
            Esk::SymKeyEncryptedSessionKey(k) => {
                assert(esk[0] is SymKeyEncryptedSessionKey);
            },
            _ => {
                if let Some(k) = first_skesk(tail) {
                    let i = choose|i: int|
                        {
                            &&& 0 <= i < tail.len()
                            &&& #[trigger] tail[i] == Esk::SymKeyEncryptedSessionKey(k)
                            &&& forall|j: int|
                                0 <= j < i ==> (#[trigger] tail[j]) is PublicKeyEncryptedSessionKey
                        };
                    assert(esk[i + 1] == tail[i]);
                    assert forall|j: int| 0 <= j < i + 1 implies (#[trigger] esk[j]) is
                        PublicKeyEncryptedSessionKey by {
                        if j > 0 {
                            assert(tail[j - 1] == esk[j]);
                        }
                    }
                } else {
                    assert forall|i: int| 0 <= i < esk.len() implies !((#[trigger] esk[i]) is
                        SymKeyEncryptedSessionKey) by {
                        if i > 0 {
                            assert(tail[i - 1] == esk[i]);
                        }
                    }
                }
            },
        }
    }
}

/// Every offered key is looked at, each for itself and in its order: what the keys of two
/// lists give is what the one gives and then what the other gives, and one key gives
/// something if and only if it fits.
pub proof fn law_every_key_is_looked_at<S>(
    a: Seq<&SignedSecretKey<S>>,
    b: Seq<&SignedSecretKey<S>>,
    key: &SignedSecretKey<S>,
    esk: Seq<Esk>,
)
    ensures
        all_fitting(a + b, esk) == all_fitting(a, esk) + all_fitting(b, esk),
        all_fitting(seq![key], esk) == match fitting(*key, esk) {
            Some(x) => seq![x],
            None => Seq::empty(),
        },
    decreases b.len(),
{
    assert(seq![key].drop_last() =~= Seq::empty());
    assert(all_fitting(seq![key].drop_last(), esk) =~= Seq::empty());
    assert(Seq::empty().push(fitting(*key, esk)->Some_0) =~= seq![fitting(*key, esk)->Some_0]);
    if b.len() == 0 {
        assert(a + b =~= a);
        assert(all_fitting(a, esk) + all_fitting(b, esk) =~= all_fitting(a, esk));
    } else {
        law_every_key_is_looked_at(a, b.drop_last(), key, esk);
        assert((a + b).drop_last() =~= a + b.drop_last());
        assert((a + b).last() == b.last());
        assert(all_fitting(a + b, esk) =~= all_fitting(a, esk) + all_fitting(b, esk));
    }
}

/// Some key fits a message if and only if some offered key, or a subkey of it, is named by
/// some packet.
pub proof fn law_some_key_fits_iff_one_is_named<S>(
    keys: Seq<&SignedSecretKey<S>>,
    esk: Seq<Esk>,
)
    ensures
        all_fitting(keys, esk).len() > 0 <==> exists|a: int, i: int|
            {
                &&& 0 <= a < keys.len()
                &&& 0 <= i < esk.len()
                &&& (#[trigger] esk[i]) matches Esk::PublicKeyEncryptedSessionKey(p)
                &&& answers_to(*#[trigger] keys[a], p.id)
            },
    decreases keys.len(),
{
    if keys.len() > 0 {
        let front = keys.drop_last();
        law_some_key_fits_iff_one_is_named(front, esk);
        law_first_fitting_packet_is_taken(*keys.last(), esk);
        if let Some((k, s)) = fitting(*keys.last(), esk) {
            let i = choose|i: int|
                0 <= i < esk.len() && #[trigger] esk[i] == Esk::PublicKeyEncryptedSessionKey(k);
            let last = keys[keys.len() - 1];
            assert(answers_to(*last, k.id));
            assert(esk[i] is PublicKeyEncryptedSessionKey);
        }
        if all_fitting(front, esk).len() > 0 {
            let (a, i) = choose|a: int, i: int|
                {
                    &&& 0 <= a < front.len()
                    &&& 0 <= i < esk.len()
                    &&& (#[trigger] esk[i]) matches Esk::PublicKeyEncryptedSessionKey(p)
                    &&& answers_to(*#[trigger] front[a], p.id)
                };
            assert(keys[a] == front[a]);
        }
        if exists|a: int, i: int|
            {
                &&& 0 <= a < keys.len()
                &&& 0 <= i < esk.len()
                &&& (#[trigger] esk[i]) matches Esk::PublicKeyEncryptedSessionKey(p)
                &&& answers_to(*#[trigger] keys[a], p.id)
            } {
            let (a, i) = choose|a: int, i: int|
                {
                    &&& 0 <= a < keys.len()
                    &&& 0 <= i < esk.len()
                    &&& (#[trigger] esk[i]) matches Esk::PublicKeyEncryptedSessionKey(p)
                    &&& answers_to(*#[trigger] keys[a], p.id)
                };
            if a < front.len() {
                assert(front[a] == keys[a]);
                assert(esk[i] is PublicKeyEncryptedSessionKey);
            }
        }
    }
}

/// Whether an entry stands for a good result: its session key, and the identifier of the
/// key that it was decrypted with.
pub open spec fn came_from<S>(
    pairs: Seq<(PublicKeyEncryptedSessionKey, SecretKey<S>)>,
    results: Seq<Result<(Vec<u8>, SymmetricKeyAlgorithm), Error>>,
    entry: (KeyId, Seq<u8>, SymmetricKeyAlgorithm),
) -> bool {
    exists|i: int|
        {
            &&& 0 <= i < results.len()
            &&& (#[trigger] results[i]) matches Ok((k, a))
            &&& entry == (pairs[i].1.key_id, k@, a)
        }
}

/// Each result of decrypting a session key counts for itself: a good one gives one entry,
/// with the identifier of the key that it was decrypted with, and a failure gives none.
pub proof fn law_good_keys_count_each<S>(
    pairs: Seq<(PublicKeyEncryptedSessionKey, SecretKey<S>)>,
    results: Seq<Result<(Vec<u8>, SymmetricKeyAlgorithm), Error>>,
)
    requires
        results.len() <= pairs.len(),
    ensures
        forall|i: int|
            0 <= i < results.len() ==> ((#[trigger] results[i]) matches Ok((k, a)) ==> good_keys(
                pairs,
                results,
            ).contains((pairs[i].1.key_id, k@, a))),
        forall|j: int|
            0 <= j < good_keys(pairs, results).len() ==> came_from(
                pairs,
                results,
                #[trigger] good_keys(pairs, results)[j],
            ),
        (forall|i: int| 0 <= i < results.len() ==> (#[trigger] results[i]) is Ok) ==> {
            &&& good_keys(pairs, results).len() == results.len()
            &&& forall|i: int|
                0 <= i < results.len() ==> (#[trigger] good_keys(pairs, results)[i]).0
                    == pairs[i].1.key_id
        },
    decreases results.len(),
{
    if results.len() > 0 {
        let front = results.drop_last();
        law_good_keys_count_each(pairs, front);
        let g = good_keys(pairs, results);
        let f = good_keys(pairs, front);
        let n = results.len() - 1;
        assert(results[n] == results.last());
        assert forall|i: int| 0 <= i < results.len() implies ((#[trigger] results[i]) matches Ok(
            (k, a),
        ) ==> g.contains((pairs[i].1.key_id, k@, a))) by {
            if let Ok((k, a)) = results[i] {
                let e = (pairs[i].1.key_id, k@, a);
                if i < n {
                    assert(front[i] == results[i]);
                    let j = choose|j: int| 0 <= j < f.len() && f[j] == e;
                    assert(g[j] == e);
                } else {
                    assert(g[f.len() as int] == e);
                }
            }
        }
        assert forall|j: int| 0 <= j < g.len() implies came_from(
            pairs,
            results,
            #[trigger] g[j],
        ) by {
            if j < f.len() {
                assert(g[j] == f[j]);
                assert(came_from(pairs, front, f[j]));
                let i = choose|i: int|
                    {
                        &&& 0 <= i < front.len()
                        &&& (#[trigger] front[i]) matches Ok((k, a))
                        &&& f[j] == (pairs[i].1.key_id, k@, a)
                    };
                assert(results[i] == front[i]);
            } else {
                assert(results[n] is Ok);
            }
        }
        if forall|i: int| 0 <= i < results.len() ==> (#[trigger] results[i]) is Ok {
            assert forall|i: int| 0 <= i < front.len() implies (#[trigger] front[i]) is Ok by {
                assert(front[i] == results[i]);
            }
            assert(results[n] is Ok);
            assert forall|i: int| 0 <= i < results.len() implies (#[trigger] g[i]).0
                == pairs[i].1.key_id by {
                if i < n {
                    assert(g[i] == f[i]);
                }
            }
        }
    }
}

/// Session keys are agreed on if and only if there is one and any two are the same; then
/// the one that all gave is taken, and every key that gave it is named.
pub proof fn law_agreed_iff_all_same(found: Seq<(KeyId, Seq<u8>, SymmetricKeyAlgorithm)>)
    ensures
        match agreed(found) {
            Ok((key, alg, ids)) => {
                &&& found.len() > 0
                &&& ids.len() == found.len()
                &&& forall|i: int|
                    0 <= i < found.len() ==> {
                        &&& (#[trigger] found[i]).1 == key
                        &&& found[i].2 == alg
                        &&& ids[i] == found[i].0
                    }
            },
            Err(e) => if found.len() == 0 {
                e == Error::SessionKeyNotDecrypted
            } else {
                &&& e == Error::InconsistentSessionKeys
                &&& exists|i: int, j: int|
                    {
                        &&& 0 <= i < found.len()
                        &&& 0 <= j < found.len()
                        &&& ((#[trigger] found[i]).1 != (#[trigger] found[j]).1 || found[i].2
                            != found[j].2)
                    }
            },
        },
{
    if agreed(found) is Err && found.len() > 0 {
        let i = choose|i: int|
            0 <= i < found.len() && ((#[trigger] found[i]).1 != found[0].1 || found[i].2
                != found[0].2);
        assert(found[i].1 != found[0].1 || found[i].2 != found[0].2);
    }
}

/// What decrypting with keys comes to, told by the fields of the keys and the packets: an
/// unencrypted message is refused, and a key is missing if and only if no packet names an
/// offered key or a subkey of one. A decrypter is for the data of the message, and holds
/// what `decrypt` got with a key from a packet that names it; the identifiers are of keys
/// that the packets name.
pub proof fn law_decrypt_by_fields<'a, G, S, D>(
    part: Option<(Seq<Esk>, Seq<Edata>)>,
    keys: Seq<&SignedSecretKey<S>>,
    key_pw: &G,
    decrypt: D,
    r: Result<(MessageDecrypter<'a>, Vec<KeyId>), Error>,
) where D: Fn(&SecretKey<S>, &G, &Vec<u8>) -> Result<(Vec<u8>, SymmetricKeyAlgorithm), Error>
    requires
        unlocked(part, keys, key_pw, decrypt, r),
    ensures
        part is None <==> r matches Err(Error::NotEncrypted),
        part matches Some((esk, _)) ==> ((r matches Err(Error::MissingKey)) <==> !exists|
            a: int,
            i: int,
        |
            {
                &&& 0 <= a < keys.len()
                &&& 0 <= i < esk.len()
                &&& (#[trigger] esk[i]) matches Esk::PublicKeyEncryptedSessionKey(p)
                &&& answers_to(*#[trigger] keys[a], p.id)
            }),
        part matches Some((esk, edata)) ==> (r matches Ok((d, ids)) ==> {
            &&& d.edata@ == edata
            &&& d.pos == 0
            &&& ids@.len() > 0
            &&& forall|n: int|
                0 <= n < ids@.len() ==> exists|k: PublicKeyEncryptedSessionKey, s: &SecretKey<S>|
                    {
                        &&& esk.contains(Esk::PublicKeyEncryptedSessionKey(k))
                        &&& k.id == #[trigger] ids@[n]
                        &&& s.key_id == k.id
                        &&& #[trigger] gave(decrypt, s, key_pw, k, d.session_key@, d.alg)
                    }
        }),
{
    if let Some((esk, edata)) = part {
        law_some_key_fits_iff_one_is_named(keys, esk);
        let pairs = all_fitting(keys, esk);
        if pairs.len() > 0 {
            let results = choose|results: Seq<Result<(Vec<u8>, SymmetricKeyAlgorithm), Error>>|
                {
                    &&& #[trigger] keys_decrypted(pairs, key_pw, decrypt, results)
                    &&& match agreed(good_keys(pairs, results)) {
                        Ok((key, alg, ids)) => {
                            &&& r matches Ok((d, i))
                            &&& d.session_key@ == key
                            &&& d.alg == alg
                            &&& d.edata@ == edata
                            &&& d.pos == 0
                            &&& i@ == ids
                        },
                        Err(e) => r == Err::<(MessageDecrypter<'a>, Vec<KeyId>), Error>(e),
                    }
                };
            let found = good_keys(pairs, results);
            law_agreed_iff_all_same(found);
            law_good_keys_count_each(pairs, results);
            if let Ok((d, ids)) = r {
                assert forall|n: int| 0 <= n < ids@.len() implies exists|
                    k: PublicKeyEncryptedSessionKey,
                    s: &SecretKey<S>,
                |
                    {
                        &&& esk.contains(Esk::PublicKeyEncryptedSessionKey(k))
                        &&& k.id == #[trigger] ids@[n]
                        &&& s.key_id == k.id
                        &&& #[trigger] gave(decrypt, s, key_pw, k, d.session_key@, d.alg)
                    } by {
                    assert(found[n].0 == ids@[n]);
                    assert(came_from(pairs, results, found[n]));
                    let i = choose|i: int|
                        {
                            &&& 0 <= i < results.len()
                            &&& (#[trigger] results[i]) matches Ok((k, a))
                            &&& found[n] == (pairs[i].1.key_id, k@, a)
                        };
                    lemma_pair_named(keys, esk, i);
                    let (k, s) = pairs[i];
                    assert(call_ensures(decrypt, (&s, key_pw, &k.mpis), results[i]));
                    assert(gave(decrypt, &s, key_pw, k, d.session_key@, d.alg));
                }
            }
        }
    }
}

/// Whether `decrypt` can have got the session key with the secret key from the packet.
pub open spec fn gave<G, S, D>(
    decrypt: D,
    secret: &SecretKey<S>,
    key_pw: &G,
    packet: PublicKeyEncryptedSessionKey,
    session_key: Seq<u8>,
    alg: SymmetricKeyAlgorithm,
) -> bool where
    D: Fn(&SecretKey<S>, &G, &Vec<u8>) -> Result<(Vec<u8>, SymmetricKeyAlgorithm), Error>,
 {
    exists|got: Result<(Vec<u8>, SymmetricKeyAlgorithm), Error>|
        {
            &&& #[trigger] call_ensures(decrypt, (secret, key_pw, &packet.mpis), got)
            &&& got matches Ok((k, a))
            &&& k@ == session_key
            &&& a == alg
        }
}

proof fn lemma_pair_named<S>(keys: Seq<&SignedSecretKey<S>>, esk: Seq<Esk>, i: int)
    requires
        0 <= i < all_fitting(keys, esk).len(),
    ensures
        ({
            let (k, s) = all_fitting(keys, esk)[i];
            esk.contains(Esk::PublicKeyEncryptedSessionKey(k)) && s.key_id == k.id
        }),
    decreases keys.len(),
{
    let front = all_fitting(keys.drop_last(), esk);
    if i < front.len() {
        lemma_pair_named(keys.drop_last(), esk, i);
    } else {
        law_first_fitting_packet_is_taken(*keys.last(), esk);
    }
}

/// What decrypting with a password comes to, told by the packets: an unencrypted message is
/// refused; a message without a password packet anywhere is not password protected; and
/// else what `decrypt` gets from the first such packet decides, for the data of the message.
pub proof fn law_decrypt_with_password_by_packets<'a, F, D>(
    part: Option<(Seq<Esk>, Seq<Edata>)>,
    msg_pw: F,
    decrypt: D,
    r: Result<MessageDecrypter<'a>, Error>,
) where
    D: FnOnce(&SymKeyEncryptedSessionKey, F) -> Result<(Vec<u8>, SymmetricKeyAlgorithm), Error>,

    requires
        unlocked_with_password(part, msg_pw, decrypt, r),
    ensures
        part is None ==> r matches Err(Error::NotEncrypted),
        part matches Some((esk, edata)) ==> {
            ||| {
                &&& forall|i: int|
                    0 <= i < esk.len() ==> !((#[trigger] esk[i]) is SymKeyEncryptedSessionKey)
                &&& r matches Err(Error::NotPasswordProtected)
            }
            ||| exists|i: int, key: Result<(Vec<u8>, SymmetricKeyAlgorithm), Error>|
                {
                    &&& 0 <= i < esk.len()
                    &&& forall|j: int|
                        0 <= j < i ==> (#[trigger] esk[j]) is PublicKeyEncryptedSessionKey
                    &&& (#[trigger] esk[i]) is SymKeyEncryptedSessionKey
                    &&& #[trigger] call_ensures(
                        decrypt,
                        (&esk[i]->SymKeyEncryptedSessionKey_0, msg_pw),
                        key,
                    )
                    &&& match key {
                        Ok((k, a)) => r matches Ok(d) && d.session_key@ == k@ && d.alg == a
                            && d.edata@ == edata && d.pos == 0,
                        Err(e) => r == Err::<MessageDecrypter<'a>, Error>(e),
                    }
                }
        },
{
    if let Some((esk, edata)) = part {
        law_first_password_packet_is_taken(esk);
        if let Some(k) = first_skesk(esk) {
            let i = choose|i: int|
                {
                    &&& 0 <= i < esk.len()
                    &&& #[trigger] esk[i] == Esk::SymKeyEncryptedSessionKey(k)
                    &&& forall|j: int|
                        0 <= j < i ==> (#[trigger] esk[j]) is PublicKeyEncryptedSessionKey
                };
            assert(esk[i]->SymKeyEncryptedSessionKey_0 == k);
            let key = choose|key: Result<(Vec<u8>, SymmetricKeyAlgorithm), Error>|
                {
                    &&& #[trigger] call_ensures(decrypt, (&k, msg_pw), key)
                    &&& match key {
                        Ok((k, alg)) => {
                            &&& r matches Ok(d)
                            &&& d.session_key == k
                            &&& d.alg == alg
                            &&& d.edata@ == edata
                            &&& d.pos == 0
                        },
                        Err(e) => r == Err::<MessageDecrypter<'a>, Error>(e),
                    }
                };
            assert(call_ensures(decrypt, (&esk[i]->SymKeyEncryptedSessionKey_0, msg_pw), key));
        }
    }
}

/// The encrypted part of a message lies under any number of signatures, announced or not,
/// and nowhere else.
pub proof fn law_encrypted_part_is_under_signatures(m: Message)
    ensures
        match m {
            Message::Encrypted { esk, edata } => m.encrypted_part() == Some((esk@, edata@)),
            Message::Signed { message: Some(inner), .. } => m.encrypted_part()
                == inner.encrypted_part(),
            _ => m.encrypted_part() is None,
        },
{
}

/// A packet that `open` decrypts gives the message in what came out, and its error where
/// `open` fails or no message can be read.
pub proof fn law_packet_gives_its_message<D>(
    alg: SymmetricKeyAlgorithm,
    session_key: &Vec<u8>,
    packet: &Edata,
    open: D,
    r: Option<Result<Message, Error>>,
) where D: Fn(SymmetricKeyAlgorithm, &Vec<u8>, &Edata) -> Result<Vec<u8>, Error>
    requires
        packet_opened(alg, session_key, packet, open, r),
    ensures
        exists|plain: Result<Vec<u8>, Error>|
            {
                &&& #[trigger] call_ensures(open, (alg, session_key, packet), plain)
                &&& r is Some
                &&& r->Some_0 matches Ok(x) ==> (plain matches Ok(octets) && message_of(octets@)
                    == Ok::<MessageModel, Error>(x@))
                &&& r->Some_0 matches Err(e) ==> (plain matches Err(f) && e == f) || (plain matches
                    Ok(octets) && message_of(octets@) == Err::<MessageModel, Error>(e))
            },
{
    let plain = choose|plain: Result<Vec<u8>, Error>|
        #[trigger] call_ensures(open, (alg, session_key, packet), plain) && opened_data(plain, r);
    assert(call_ensures(open, (alg, session_key, packet), plain));
}

/// The recipients of packets are those of each packet, in their order: a packet for a
/// public key gives the identifier in it, and any other gives none.
pub proof fn law_recipients_of_each_packet(a: Seq<PacketModel>, b: Seq<PacketModel>, p: PacketModel)
    ensures
        pkesk_ids(a + b) == pkesk_ids(a) + pkesk_ids(b),
        pkesk_ids(seq![p]) == match p {
            PacketModel::PublicKeyEncryptedSessionKey(k) => seq![k.id],
            _ => Seq::empty(),
        },
{
    let keep = |p: PacketModel| p is PublicKeyEncryptedSessionKey;
    Seq::filter_distributes_over_add(a, b, keep);
    assert(pkesk_ids(a + b) =~= pkesk_ids(a) + pkesk_ids(b));
    reveal_with_fuel(Seq::filter, 2);
    assert(seq![p].drop_last() =~= Seq::empty());
    assert(pkesk_ids(seq![p]) =~= match p {
        PacketModel::PublicKeyEncryptedSessionKey(k) => seq![k.id],
        _ => Seq::empty(),
    });
}

/// Only an encrypted message has recipients, and they are those of its session keys.
pub proof fn law_recipients_by_shape(m: MessageModel)
    ensures
        match m {
            MessageModel::Encrypted { esk, .. } => m.recipients() == pkesk_ids(esk),
            _ => m.recipients() == Seq::<KeyId>::empty(),
        },
{
}

/// Lists of references and of decrypted session keys stand for what is in them, one by one.
pub proof fn law_lists_stand_for_their_elements(
    ids: Seq<&KeyId>,
    found: Seq<(KeyId, (Vec<u8>, SymmetricKeyAlgorithm))>,
)
    ensures
        ids_of(ids).len() == ids.len(),
        forall|i: int| 0 <= i < ids.len() ==> #[trigger] ids_of(ids)[i] == *ids[i],
        found_models(found).len() == found.len(),
        forall|i: int|
            0 <= i < found.len() ==> #[trigger] found_models(found)[i] == (
                found[i].0,
                found[i].1.0@,
                found[i].1.1,
            ),
{
}

} // verus!
