use pgp_message::encrypted::{Edata, Esk};
use pgp_message::errors::Error;
use pgp_message::packet::{
    CompressedData, LiteralData, Marker, OnePassSignature, Packet, PublicKeyEncryptedSessionKey,
    Signature, SymEncryptedData, SymEncryptedProtectedData, SymKeyEncryptedSessionKey,
};
use pgp_message::types::{CompressionAlgorithm, DataMode, KeyId, Tag, Version};

fn pkesk() -> PublicKeyEncryptedSessionKey {
    PublicKeyEncryptedSessionKey {
        packet_version: Version::New,
        id: KeyId(7),
        algorithm: 1,
        mpis: vec![1],
    }
}

fn skesk() -> SymKeyEncryptedSessionKey {
    SymKeyEncryptedSessionKey {
        packet_version: Version::Old,
        data: vec![2],
    }
}

fn sed() -> SymEncryptedData {
    SymEncryptedData {
        packet_version: Version::Old,
        data: vec![3],
    }
}

fn seipd() -> SymEncryptedProtectedData {
    SymEncryptedProtectedData {
        packet_version: Version::New,
        data: vec![4],
    }
}

fn wrong(p: Packet) -> Error {
    Error::InvalidPacketType(Box::new(p))
}

#[test]
fn session_keys_turn_into_packets_and_back() {
    for e in vec![Esk::from(pkesk()), Esk::from(skesk())] {
        let p = Packet::from(e.clone());
        assert_eq!(p.tag(), e.tag());
        assert_eq!(Esk::try_from(p.clone()), Ok(e));
        assert_eq!(Edata::try_from(p.clone()), Err(wrong(p)));
    }
    assert_eq!(Esk::from(pkesk()).tag(), Tag::PublicKeyEncryptedSessionKey);
    assert_eq!(Esk::from(skesk()).tag(), Tag::SymKeyEncryptedSessionKey);
}

#[test]
fn encrypted_data_turns_into_packets_and_back() {
    for e in vec![Edata::from(sed()), Edata::from(seipd())] {
        let p = Packet::from(e.clone());
        assert_eq!(p.tag(), e.tag());
        assert_eq!(Edata::try_from(p.clone()), Ok(e));
        assert_eq!(Esk::try_from(p.clone()), Err(wrong(p)));
    }
    assert_eq!(Edata::from(sed()).data(), &[3]);
    assert_eq!(Edata::from(seipd()).data(), &[4]);
    assert_eq!(Edata::from(sed()).tag(), Tag::SymEncryptedData);
    assert_eq!(Edata::from(seipd()).tag(), Tag::SymEncryptedProtectedData);
}

#[test]
fn the_right_kind_is_taken_out() {
    assert_eq!(
        PublicKeyEncryptedSessionKey::try_from(Esk::from(pkesk())),
        Ok(pkesk())
    );
    assert_eq!(
        PublicKeyEncryptedSessionKey::try_from(Esk::from(skesk())),
        Err(wrong(Packet::from(Esk::from(skesk()))))
    );
    assert_eq!(
        SymKeyEncryptedSessionKey::try_from(Esk::from(skesk())),
        Ok(skesk())
    );
    assert_eq!(
        SymKeyEncryptedSessionKey::try_from(Esk::from(pkesk())),
        Err(wrong(Packet::from(Esk::from(pkesk()))))
    );
    assert_eq!(SymEncryptedData::try_from(Edata::from(sed())), Ok(sed()));
    assert_eq!(
        SymEncryptedData::try_from(Edata::from(seipd())),
        Err(wrong(Packet::from(Edata::from(seipd()))))
    );
    assert_eq!(
        SymEncryptedProtectedData::try_from(Edata::from(seipd())),
        Ok(seipd())
    );
    assert_eq!(
        SymEncryptedProtectedData::try_from(Edata::from(sed())),
        Err(wrong(Packet::from(Edata::from(sed()))))
    );
}

#[test]
fn other_packets_are_neither() {
    let others = vec![
        Packet::Signature(Signature {
            packet_version: Version::New,
            data: vec![],
        }),
        Packet::OnePassSignature(OnePassSignature {
            packet_version: Version::New,
            data: vec![],
        }),
        Packet::Marker(Marker {
            packet_version: Version::New,
            data: vec![],
        }),
        Packet::LiteralData(LiteralData::from_str("a", "b")),
        Packet::CompressedData(CompressedData::from_compressed(
            CompressionAlgorithm::ZIP,
            vec![],
        )),
    ];
    for p in others {
        assert_eq!(Esk::try_from(p.clone()), Err(wrong(p.clone())));
        assert_eq!(Edata::try_from(p.clone()), Err(wrong(p)));
    }
}

#[test]
fn numbers_stand_for_names() {
    for code in 0..=255u8 {
        if let Some(t) = Tag::from_code(code) {
            assert_eq!(t.code(), code);
        }
        if let Some(a) = CompressionAlgorithm::from_code(code) {
            assert_eq!(a.code(), code);
        }
        if let Some(m) = DataMode::from_code(code) {
            assert_eq!(m.code(), code);
        }
    }
    assert_eq!(Tag::from_code(18), Some(Tag::SymEncryptedProtectedData));
    assert_eq!(Tag::from_code(0), None);
    assert_eq!(
        CompressionAlgorithm::from_code(2),
        Some(CompressionAlgorithm::ZLIB)
    );
    assert_eq!(CompressionAlgorithm::from_code(4), None);
    assert_eq!(DataMode::from_code(b'u'), Some(DataMode::Utf8));
    assert_eq!(DataMode::from_code(b'x'), None);
}

#[test]
fn errors_say_what_went_wrong() {
    assert_eq!(Error::NotEncrypted.message(), "not encrypted");
    assert_eq!(
        Error::SessionKeyNotDecrypted.message(),
        "failed to decrypt session key"
    );
    assert_eq!(
        Error::InconsistentSessionKeys.message(),
        "found inconsistent session keys, possible message corruption"
    );
    assert_eq!(
        Error::NotPasswordProtected.message(),
        "message is not password protected"
    );
    assert_eq!(Error::Other("x".to_string()).message(), "x");
    assert_eq!(
        Edata::try_from(Packet::from(Esk::from(skesk())))
            .unwrap_err()
            .message(),
        "not a valid edata packet: SymKeyEncryptedSessionKey(\
         SymKeyEncryptedSessionKey { packet_version: Old, data: [2] })"
    );
}
