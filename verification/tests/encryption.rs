use pgp_message::decryption::{
    agree_on_session_key, find_fitting, MessageDecrypter, SecretKey, SignedSecretKey,
};
use pgp_message::encrypted::{Edata, Esk};
use pgp_message::errors::Error;
use pgp_message::message::Message;
use pgp_message::packet::{
    PublicKeyEncryptedSessionKey, Signature, SymEncryptedProtectedData, SymKeyEncryptedSessionKey,
};
use pgp_message::session_key::SymmetricKeyAlgorithm;
use pgp_message::types::{CompressionAlgorithm, KeyId, Tag, Version};

/// A cipher that is its own inverse.
fn mix(key: &[u8], data: &[u8]) -> Vec<u8> {
    data.iter()
        .enumerate()
        .map(|(i, b)| b ^ key[i % key.len()] ^ (i as u8))
        .collect()
}

fn protect(
    _alg: SymmetricKeyAlgorithm,
    key: &[u8],
    data: &[u8],
) -> Result<SymEncryptedProtectedData, Error> {
    Ok(SymEncryptedProtectedData {
        packet_version: Version::New,
        data: mix(key, data),
    })
}

fn open(_alg: SymmetricKeyAlgorithm, key: &Vec<u8>, data: &Edata) -> Result<Vec<u8>, Error> {
    assert_eq!(data.tag(), Tag::SymEncryptedProtectedData);
    Ok(mix(key, data.data()))
}

struct PublicKey {
    id: u64,
    secret: u8,
}

fn to_key(
    session_key: &[u8],
    alg: SymmetricKeyAlgorithm,
    key: &PublicKey,
) -> Result<PublicKeyEncryptedSessionKey, Error> {
    assert_eq!(alg, SymmetricKeyAlgorithm::AES128);
    Ok(PublicKeyEncryptedSessionKey {
        packet_version: Version::New,
        id: KeyId(key.id),
        algorithm: 1,
        mpis: mix(&[key.secret], session_key),
    })
}

fn from_key(
    key: &SecretKey<u8>,
    password: &String,
    mpis: &Vec<u8>,
) -> Result<(Vec<u8>, SymmetricKeyAlgorithm), Error> {
    if password == "test" {
        Ok((mix(&[key.secret], mpis), SymmetricKeyAlgorithm::AES128))
    } else {
        Err(Error::Other("wrong password".to_string()))
    }
}

fn secret(id: u64, secret: u8) -> SecretKey<u8> {
    SecretKey {
        key_id: KeyId(id),
        secret,
    }
}

fn hello() -> Message {
    Message::new_literal("hello.txt", "hello world\n")
        .compress(CompressionAlgorithm::ZLIB)
        .unwrap()
}

#[test]
fn messages_encrypted_to_keys_are_decrypted() {
    let compressed_msg = hello();
    let (a, b) = (PublicKey { id: 11, secret: 5 }, PublicKey { id: 22, secret: 6 });
    let mut rng = rand::thread_rng();
    let encrypted = compressed_msg
        .encrypt_to_keys(
            &mut rng,
            SymmetricKeyAlgorithm::AES128,
            &[&a, &b],
            to_key,
            protect,
        )
        .unwrap();
    assert_eq!(encrypted.get_recipients(), vec![&KeyId(11), &KeyId(22)]);

    let armored = encrypted.to_armored_bytes(None).unwrap();
    let parsed = Message::from_armor_single(&armored).unwrap().0;
    assert_eq!(parsed, encrypted);

    // The key for the message is a subkey.
    let skey = SignedSecretKey {
        primary_key: secret(1, 99),
        secret_subkeys: vec![secret(2, 98), secret(22, 6)],
    };
    let (mut decrypter, ids) = parsed
        .decrypt(|| String::new(), &"test".to_string(), &[&skey], from_key)
        .unwrap();
    assert_eq!(ids, vec![KeyId(22)]);
    assert_eq!(decrypter.session_key.len(), 16);
    assert_eq!(decrypter.alg, SymmetricKeyAlgorithm::AES128);
    assert_eq!(decrypter.next(open), Some(Ok(compressed_msg)));
    assert_eq!(decrypter.next(open), None);

    // Both keys give the same session key.
    let other = SignedSecretKey {
        primary_key: secret(11, 5),
        secret_subkeys: vec![],
    };
    let (_, ids) = parsed
        .decrypt((), &"test".to_string(), &[&other, &skey], from_key)
        .unwrap();
    assert_eq!(ids, vec![KeyId(11), KeyId(22)]);
}

#[test]
fn messages_encrypted_with_a_password_are_decrypted() {
    let compressed_msg = hello();
    let mut rng = rand::thread_rng();
    let encrypted = compressed_msg
        .encrypt_with_password(
            &mut rng,
            3u8,
            SymmetricKeyAlgorithm::AES128,
            "secret",
            |pw: &str, key: &[u8], salt: u8, alg: SymmetricKeyAlgorithm| {
                assert_eq!(alg, SymmetricKeyAlgorithm::AES128);
                assert_eq!(key.len(), 16);
                let mut data = vec![salt];
                data.extend(mix(pw.as_bytes(), key));
                Ok(SymKeyEncryptedSessionKey {
                    packet_version: Version::New,
                    data,
                })
            },
            protect,
        )
        .unwrap();

    let armored = encrypted.to_armored_bytes(None).unwrap();
    let parsed = Message::from_armor_single(&armored).unwrap().0;

    let unlock = |k: &SymKeyEncryptedSessionKey, pw: &str| {
        assert_eq!(k.data[0], 3);
        Ok((
            mix(pw.as_bytes(), &k.data[1..]),
            SymmetricKeyAlgorithm::AES128,
        ))
    };
    let mut decrypter = parsed.decrypt_with_password("secret", unlock).unwrap();
    assert_eq!(decrypter.next(open), Some(Ok(compressed_msg)));
    assert_eq!(decrypter.next(open), None);

    let mut wrong = parsed.decrypt_with_password("guess!", unlock).unwrap();
    assert!(wrong.next(open).unwrap().is_err());
}

#[test]
fn session_keys_have_the_size_of_their_algorithm() {
    let mut rng = rand::thread_rng();
    assert_eq!(
        SymmetricKeyAlgorithm::AES256.new_session_key(&mut rng).len(),
        32
    );
    assert_eq!(
        SymmetricKeyAlgorithm::TripleDES
            .new_session_key(&mut rng)
            .len(),
        24
    );
    assert_eq!(
        SymmetricKeyAlgorithm::Plaintext
            .new_session_key(&mut rng)
            .len(),
        0
    );
    let a = SymmetricKeyAlgorithm::AES256.new_session_key(&mut rng);
    let b = SymmetricKeyAlgorithm::AES256.new_session_key(&mut rng);
    assert_ne!(a, b);
}

#[test]
fn encryption_hands_on_what_the_ciphers_say() {
    let m = Message::new_literal("a", "b");
    let octets = m.to_bytes().unwrap();
    let key = [1u8, 2, 3];
    let sealed = m
        .encrypt_symmetric(
            vec![],
            SymmetricKeyAlgorithm::CAST5,
            &key,
            |alg, k: &[u8], d: &[u8]| {
                assert_eq!(alg, SymmetricKeyAlgorithm::CAST5);
                assert_eq!(k, &[1, 2, 3]);
                assert_eq!(d, &octets[..]);
                protect(alg, k, d)
            },
        )
        .unwrap();
    match &sealed {
        Message::Encrypted { esk, edata } => {
            assert!(esk.is_empty());
            assert_eq!(edata.len(), 1);
            assert_eq!(edata[0].data(), &mix(&key, &octets)[..]);
        }
        _ => panic!("not encrypted"),
    }
    assert_eq!(
        m.encrypt_symmetric(
            vec![],
            SymmetricKeyAlgorithm::CAST5,
            &key,
            |_, _: &[u8], _: &[u8]| Err(Error::Other("no cipher".to_string())),
        ),
        Err(Error::Other("no cipher".to_string()))
    );
}

#[test]
fn the_first_key_that_fails_ends_encryption() {
    let m = Message::new_literal("a", "b");
    let keys = [
        PublicKey { id: 1, secret: 1 },
        PublicKey { id: 2, secret: 2 },
        PublicKey { id: 3, secret: 3 },
    ];
    let tried = std::cell::RefCell::new(Vec::new());
    let r = m.encrypt_to_keys_under(
        &[7; 16],
        SymmetricKeyAlgorithm::AES128,
        &[&keys[0], &keys[1], &keys[2]],
        |s: &[u8], a, k: &PublicKey| {
            tried.borrow_mut().push(k.id);
            if k.id == 2 {
                Err(Error::Other("bad key".to_string()))
            } else {
                to_key(s, a, k)
            }
        },
        protect,
    );
    assert_eq!(r, Err(Error::Other("bad key".to_string())));
    assert_eq!(*tried.borrow(), vec![1, 2]);
}

#[test]
fn a_password_cipher_that_fails_ends_encryption() {
    let r = Message::new_literal("a", "b").encrypt_with_password_under(
        &[7; 16],
        (),
        SymmetricKeyAlgorithm::AES128,
        "pw",
        |_: &str, _: &[u8], _: (), _| Err(Error::Other("no".to_string())),
        protect,
    );
    assert_eq!(r, Err(Error::Other("no".to_string())));
}

fn encrypted_to(ids: &[(u64, u8)], session_key: &[u8]) -> Message {
    Message::Encrypted {
        esk: ids
            .iter()
            .map(|(id, s)| {
                Esk::PublicKeyEncryptedSessionKey(
                    to_key(
                        session_key,
                        SymmetricKeyAlgorithm::AES128,
                        &PublicKey { id: *id, secret: *s },
                    )
                    .unwrap(),
                )
            })
            .collect(),
        edata: vec![Edata::SymEncryptedProtectedData(SymEncryptedProtectedData {
            packet_version: Version::New,
            data: vec![],
        })],
    }
}

#[test]
fn decryption_errors() {
    let key = SignedSecretKey {
        primary_key: secret(5, 50),
        secret_subkeys: vec![],
    };
    let test = "test".to_string();
    let lit = Message::new_literal("a", "b");
    assert!(matches!(
        lit.decrypt((), &test, &[&key], from_key),
        Err(Error::NotEncrypted)
    ));
    assert!(matches!(
        hello().decrypt((), &test, &[&key], from_key),
        Err(Error::NotEncrypted)
    ));
    let detached = Message::Signed {
        message: None,
        one_pass_signature: None,
        signature: Signature {
            packet_version: Version::New,
            data: vec![],
        },
    };
    assert!(matches!(
        detached.decrypt((), &test, &[&key], from_key),
        Err(Error::NotEncrypted)
    ));
    assert!(matches!(
        encrypted_to(&[(6, 60)], &[1; 16]).decrypt((), &test, &[&key], from_key),
        Err(Error::MissingKey)
    ));
    assert!(matches!(
        encrypted_to(&[(5, 50)], &[1; 16]).decrypt((), &test, &[], from_key),
        Err(Error::MissingKey)
    ));
    assert!(matches!(
        encrypted_to(&[(5, 50)], &[1; 16]).decrypt(
            (),
            &"guess".to_string(),
            &[&key],
            from_key
        ),
        Err(Error::SessionKeyNotDecrypted)
    ));
    // One key is lying about the session key.
    let liar = SignedSecretKey {
        primary_key: secret(6, 61),
        secret_subkeys: vec![],
    };
    assert!(matches!(
        encrypted_to(&[(5, 50), (6, 60)], &[1; 16]).decrypt((), &test, &[&key, &liar], from_key),
        Err(Error::InconsistentSessionKeys)
    ));
}

#[test]
fn keys_that_fail_do_no_harm() {
    let good = SignedSecretKey {
        primary_key: secret(5, 50),
        secret_subkeys: vec![],
    };
    let bad = SignedSecretKey {
        primary_key: secret(6, 60),
        secret_subkeys: vec![],
    };
    let m = encrypted_to(&[(5, 50), (6, 60)], &[1; 16]);
    let (d, ids) = m
        .decrypt(
            (),
            &(),
            &[&bad, &good],
            |k: &SecretKey<u8>, _: &(), mpis: &Vec<u8>| {
                if k.secret == 60 {
                    Err(Error::Other("broken".to_string()))
                } else {
                    Ok((mix(&[k.secret], mpis), SymmetricKeyAlgorithm::AES128))
                }
            },
        )
        .unwrap();
    assert_eq!(ids, vec![KeyId(5)]);
    assert_eq!(d.session_key, vec![1; 16]);
}

#[test]
fn the_first_session_key_that_fits_is_taken() {
    let key = SignedSecretKey {
        primary_key: secret(9, 1),
        secret_subkeys: vec![secret(7, 2), secret(7, 3), secret(9, 4)],
    };
    let m = encrypted_to(&[(8, 0), (7, 2), (9, 1)], &[1; 16]);
    let esk = match &m {
        Message::Encrypted { esk, .. } => esk,
        _ => panic!("not encrypted"),
    };
    // The second packet is the first that fits; the first subkey with its id is taken.
    let (packet, found) = find_fitting(&key, esk).unwrap();
    assert_eq!(packet.id, KeyId(7));
    assert_eq!(found.secret, 2);
    // The primary key comes before a subkey with the same id.
    let m = encrypted_to(&[(9, 1)], &[1; 16]);
    let esk = match &m {
        Message::Encrypted { esk, .. } => esk,
        _ => panic!("not encrypted"),
    };
    assert_eq!(find_fitting(&key, esk).unwrap().1.secret, 1);
}

#[test]
fn decryption_looks_under_signatures() {
    let m = Message::Signed {
        message: Some(Box::new(encrypted_to(&[(5, 50)], &[1; 16]))),
        one_pass_signature: None,
        signature: Signature {
            packet_version: Version::New,
            data: vec![],
        },
    };
    let key = SignedSecretKey {
        primary_key: secret(5, 50),
        secret_subkeys: vec![],
    };
    let (_, ids) = m
        .decrypt((), &"test".to_string(), &[&key], from_key)
        .unwrap();
    assert_eq!(ids, vec![KeyId(5)]);
    assert!(m.get_recipients().is_empty());
    assert!(matches!(
        m.decrypt_with_password((), |_: &SymKeyEncryptedSessionKey, _: ()| panic!("not called")),
        Err(Error::NotPasswordProtected)
    ));
}

#[test]
fn password_decryption_errors() {
    let never = |_: &SymKeyEncryptedSessionKey, _: ()| panic!("not called");
    assert!(matches!(
        Message::new_literal("a", "b").decrypt_with_password((), never),
        Err(Error::NotEncrypted)
    ));
    assert!(matches!(
        encrypted_to(&[(5, 50)], &[1; 16]).decrypt_with_password((), never),
        Err(Error::NotPasswordProtected)
    ));
    // The first of several passwords is the one that is tried.
    let skesk = |n| {
        Esk::SymKeyEncryptedSessionKey(SymKeyEncryptedSessionKey {
            packet_version: Version::New,
            data: vec![n],
        })
    };
    let m = Message::Encrypted {
        esk: vec![skesk(1), skesk(2)],
        edata: vec![],
    };
    assert!(matches!(
        m.decrypt_with_password((), |k: &SymKeyEncryptedSessionKey, _: ()| {
            Err(Error::Other(format!("{}", k.data[0])))
        }),
        Err(Error::Other(s)) if s == "1"
    ));
}

#[test]
fn session_keys_must_agree() {
    let aes = SymmetricKeyAlgorithm::AES128;
    let twofish = SymmetricKeyAlgorithm::Twofish;
    assert_eq!(
        agree_on_session_key(vec![]),
        Err(Error::SessionKeyNotDecrypted)
    );
    assert_eq!(
        agree_on_session_key(vec![
            (KeyId(1), (vec![1, 2], aes)),
            (KeyId(2), (vec![1, 2], aes)),
        ]),
        Ok((vec![1, 2], aes, vec![KeyId(1), KeyId(2)]))
    );
    assert_eq!(
        agree_on_session_key(vec![
            (KeyId(1), (vec![1, 2], aes)),
            (KeyId(2), (vec![1, 3], aes)),
        ]),
        Err(Error::InconsistentSessionKeys)
    );
    assert_eq!(
        agree_on_session_key(vec![
            (KeyId(1), (vec![1, 2], aes)),
            (KeyId(2), (vec![1, 2], twofish)),
        ]),
        Err(Error::InconsistentSessionKeys)
    );
    assert_eq!(
        agree_on_session_key(vec![
            (KeyId(1), (vec![1, 2], aes)),
            (KeyId(2), (vec![1], aes)),
        ]),
        Err(Error::InconsistentSessionKeys)
    );
}

#[test]
fn the_decrypter_goes_from_packet_to_packet() {
    let (a, b) = (Message::new_literal("a", "1"), Message::new_literal("b", "2"));
    let key = vec![9u8; 16];
    let packet = |data: Vec<u8>| {
        Edata::SymEncryptedProtectedData(SymEncryptedProtectedData {
            packet_version: Version::New,
            data,
        })
    };
    let edata = vec![
        packet(mix(&key, &a.to_bytes().unwrap())),
        packet(vec![]),
        packet(mix(&key, &b.to_bytes().unwrap())),
    ];
    let mut d = MessageDecrypter::new(key, SymmetricKeyAlgorithm::AES128, &edata);
    assert_eq!(d.next(open), Some(Ok(a)));
    assert_eq!(d.next(open), Some(Err(Error::UnexpectedEof)));
    assert_eq!(
        d.next(|_, _: &Vec<u8>, _: &Edata| Err(Error::Other("damaged".to_string()))),
        Some(Err(Error::Other("damaged".to_string())))
    );
    assert_eq!(d.next(open), None);
}
