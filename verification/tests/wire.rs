use pgp_message::encrypted::{Edata, Esk};
use pgp_message::errors::Error;
use pgp_message::message::Message;
use pgp_message::packet::{
    read_packet, CompressedData, LiteralData, OnePassSignature, Packet,
    PublicKeyEncryptedSessionKey, Signature, SymEncryptedData, SymEncryptedProtectedData,
    SymKeyEncryptedSessionKey,
};
use pgp_message::types::{CompressionAlgorithm, DataMode, KeyId, Version};

fn sig(n: u8) -> Signature {
    Signature {
        packet_version: Version::New,
        data: vec![4, n],
    }
}

fn ops() -> OnePassSignature {
    OnePassSignature {
        packet_version: Version::New,
        data: vec![3, 9],
    }
}

fn pkesk(id: u64) -> PublicKeyEncryptedSessionKey {
    PublicKeyEncryptedSessionKey {
        packet_version: Version::New,
        id: KeyId(id),
        algorithm: 1,
        mpis: vec![0, 8, 255],
    }
}

fn skesk() -> SymKeyEncryptedSessionKey {
    SymKeyEncryptedSessionKey {
        packet_version: Version::New,
        data: vec![4, 7],
    }
}

fn seipd(data: Vec<u8>) -> SymEncryptedProtectedData {
    SymEncryptedProtectedData {
        packet_version: Version::New,
        data,
    }
}

fn literal(version: Version, n: usize) -> LiteralData {
    LiteralData {
        packet_version: version,
        mode: DataMode::Binary,
        file_name: vec![],
        created: 0x01020304,
        data: vec![7; n],
    }
}

fn round_trip(m: &Message) {
    assert_eq!(Message::from_bytes(&m.to_bytes().unwrap()), Ok(m.clone()));
}

#[test]
fn literal_octets_are_exact() {
    let m = Message::new_literal("hello.txt", "hello world");
    let mut expected = vec![0xCBu8, 26, b'u', 9];
    expected.extend_from_slice(b"hello.txt");
    expected.extend_from_slice(&[0, 0, 0, 0]);
    expected.extend_from_slice(b"hello world");
    assert_eq!(m.to_bytes(), Ok(expected));
    round_trip(&m);
}

#[test]
fn new_lengths_change_form_at_their_limits() {
    // A literal packet without a name has six octets before its data.
    let header = |n: usize| {
        let m = Message::Literal(literal(Version::New, n - 6));
        round_trip(&m);
        let bytes = m.to_bytes().unwrap();
        bytes[..bytes.len() - n].to_vec()
    };
    assert_eq!(header(191), vec![0xCB, 191]);
    assert_eq!(header(192), vec![0xCB, 192, 0]);
    assert_eq!(header(8383), vec![0xCB, 223, 255]);
    assert_eq!(header(8384), vec![0xCB, 255, 0, 0, 0x20, 0xC0]);
}

#[test]
fn old_lengths_change_form_at_their_limits() {
    let header = |n: usize| {
        let m = Message::Literal(literal(Version::Old, n - 6));
        round_trip(&m);
        let bytes = m.to_bytes().unwrap();
        bytes[..bytes.len() - n].to_vec()
    };
    assert_eq!(header(255), vec![0xAC, 255]);
    assert_eq!(header(256), vec![0xAD, 1, 0]);
    assert_eq!(header(65535), vec![0xAD, 255, 255]);
    assert_eq!(header(65536), vec![0xAE, 0, 1, 0, 0]);
}

#[test]
fn partial_and_indeterminate_lengths_are_read() {
    // Four octets, then two, then the last one.
    let parts = [0xCB, 226, b'b', 0, 0, 0, 225, 0, 0, 1, b'x'];
    let expected = Message::Literal(LiteralData {
        packet_version: Version::New,
        mode: DataMode::Binary,
        file_name: vec![],
        created: 0,
        data: b"x".to_vec(),
    });
    assert_eq!(Message::from_bytes(&parts), Ok(expected));

    let open_end = [0xAF, b'b', 0, 0, 0, 0, 0, b'x', b'y'];
    let expected = Message::Literal(LiteralData {
        packet_version: Version::Old,
        mode: DataMode::Binary,
        file_name: vec![],
        created: 0,
        data: b"xy".to_vec(),
    });
    assert_eq!(Message::from_bytes(&open_end), Ok(expected));
}

#[test]
fn session_key_octets_are_exact() {
    let mut out = vec![42];
    Esk::PublicKeyEncryptedSessionKey(pkesk(0x0102030405060708))
        .to_writer(&mut out)
        .unwrap();
    assert_eq!(
        out,
        vec![42, 0xC1, 13, 3, 1, 2, 3, 4, 5, 6, 7, 8, 1, 0, 8, 255]
    );
    let mut out = vec![];
    Esk::SymKeyEncryptedSessionKey(skesk())
        .to_writer(&mut out)
        .unwrap();
    assert_eq!(out, vec![0xC3, 2, 4, 7]);
    let mut out = vec![];
    Edata::SymEncryptedProtectedData(seipd(vec![9, 9]))
        .to_writer(&mut out)
        .unwrap();
    assert_eq!(out, vec![0xD2, 3, 1, 9, 9]);
    let mut out = vec![];
    Edata::SymEncryptedData(SymEncryptedData {
        packet_version: Version::Old,
        data: vec![5],
    })
    .to_writer(&mut out)
    .unwrap();
    assert_eq!(out, vec![0xA4, 1, 5]);
}

#[test]
fn compressed_octets_are_exact() {
    let m = Message::Compressed(CompressedData::from_compressed(
        CompressionAlgorithm::ZLIB,
        vec![1, 2, 3],
    ));
    assert_eq!(m.to_bytes(), Ok(vec![0xC8, 4, 2, 1, 2, 3]));
    round_trip(&m);
}

#[test]
fn encrypted_messages_round_trip() {
    let m = Message::Encrypted {
        esk: vec![
            Esk::PublicKeyEncryptedSessionKey(pkesk(1)),
            Esk::SymKeyEncryptedSessionKey(skesk()),
            Esk::PublicKeyEncryptedSessionKey(pkesk(u64::MAX)),
        ],
        edata: vec![
            Edata::SymEncryptedProtectedData(seipd(vec![1])),
            Edata::SymEncryptedProtectedData(seipd(vec![2])),
        ],
    };
    round_trip(&m);
    assert_eq!(
        m.get_recipients(),
        vec![&KeyId(1), &KeyId(u64::MAX)]
    );
    let without_keys = Message::Encrypted {
        esk: vec![],
        edata: vec![Edata::SymEncryptedData(SymEncryptedData {
            packet_version: Version::New,
            data: vec![],
        })],
    };
    round_trip(&without_keys);
    assert!(without_keys.get_recipients().is_empty());
    assert!(Message::new_literal("", "").get_recipients().is_empty());
    assert_eq!(m.get_content(), Ok(None));
}

#[test]
fn signed_messages_are_written_in_order() {
    let lit = Message::new_literal("", "x");
    let lit_bytes = lit.to_bytes().unwrap();
    let one_pass = Message::Signed {
        message: Some(Box::new(lit.clone())),
        one_pass_signature: Some(ops()),
        signature: sig(1),
    };
    assert!(one_pass.is_one_pass_signed());
    let mut expected = vec![0xC4u8, 2, 3, 9];
    expected.extend_from_slice(&lit_bytes);
    expected.extend_from_slice(&[0xC2, 2, 4, 1]);
    assert_eq!(one_pass.to_bytes(), Ok(expected));
    round_trip(&one_pass);

    let nested = Message::Signed {
        message: Some(Box::new(one_pass)),
        one_pass_signature: Some(ops()),
        signature: sig(2),
    };
    round_trip(&nested);

    let alone = Message::Signed {
        message: None,
        one_pass_signature: None,
        signature: sig(1),
    };
    assert_eq!(alone.to_bytes(), Ok(vec![0xC2, 2, 4, 1]));
    round_trip(&alone);
}

#[test]
fn an_unannounced_signature_stands_before_its_message() {
    let lit = Message::new_literal("", "x");
    let m = Message::Signed {
        message: Some(Box::new(lit.clone())),
        one_pass_signature: None,
        signature: sig(1),
    };
    let mut expected = vec![0xC2, 2, 4, 1];
    expected.extend_from_slice(&lit.to_bytes().unwrap());
    assert_eq!(m.to_bytes(), Ok(expected));
    round_trip(&m);

    // Behind a message, the same signature is not a part of it.
    let mut behind = lit.to_bytes().unwrap();
    behind.extend_from_slice(&[0xC2, 2, 4, 1]);
    assert_eq!(Message::from_bytes(&behind), Ok(lit));

    let announced = Message::Signed {
        message: Some(Box::new(m)),
        one_pass_signature: Some(ops()),
        signature: sig(2),
    };
    round_trip(&announced);
}

#[test]
fn signatures_alone_read_back() {
    let chain = Message::Signed {
        message: Some(Box::new(Message::Signed {
            message: None,
            one_pass_signature: None,
            signature: sig(1),
        })),
        one_pass_signature: None,
        signature: sig(2),
    };
    assert_eq!(
        chain.to_bytes(),
        Ok(vec![0xC2, 2, 4, 2, 0xC2, 2, 4, 1])
    );
    round_trip(&chain);
}

#[test]
fn an_announced_signature_of_nothing_does_not_read_back() {
    let m = Message::Signed {
        message: None,
        one_pass_signature: Some(ops()),
        signature: sig(1),
    };
    assert_eq!(
        Message::from_bytes(&m.to_bytes().unwrap()),
        Err(Error::UnexpectedEof)
    );
}

#[test]
fn markers_are_passed_over() {
    let lit = Message::new_literal("", "x");
    let mut bytes = vec![0xCA, 3, b'P', b'G', b'P'];
    bytes.extend_from_slice(&lit.to_bytes().unwrap());
    assert_eq!(Message::from_bytes(&bytes), Ok(lit));
}

#[test]
fn what_follows_a_message_does_not_matter() {
    let lit = Message::new_literal("", "x");
    let mut bytes = lit.to_bytes().unwrap();
    bytes.push(0);
    assert_eq!(Message::from_bytes(&bytes), Ok(lit));
}

#[test]
fn bad_octets_are_refused() {
    let e = |b: &[u8]| Message::from_bytes(b).unwrap_err();
    assert_eq!(e(&[]), Error::UnexpectedEof);
    assert_eq!(e(&[0x12, 0]), Error::InvalidHeader);
    assert_eq!(e(&[0xCB]), Error::UnexpectedEof);
    assert_eq!(e(&[0xCB, 9, 1]), Error::UnexpectedEof);
    assert_eq!(e(&[0xCB, 192]), Error::UnexpectedEof);
    assert_eq!(e(&[0xCB, 255, 0, 0, 0]), Error::UnexpectedEof);
    assert_eq!(e(&[0xCB, 225, 1]), Error::UnexpectedEof);
    assert_eq!(e(&[0xCD, 1, b'x']), Error::UnexpectedPacket(13));
    assert_eq!(e(&[0xCB, 1, b'u']), Error::InvalidBody);
    assert_eq!(e(&[0xCB, 6, b'q', 0, 0, 0, 0, 0]), Error::InvalidBody);
    assert_eq!(e(&[0xCB, 6, b'u', 1, 0, 0, 0, 0]), Error::InvalidBody);
    assert_eq!(e(&[0xC8, 1, 9]), Error::InvalidBody);
    assert_eq!(e(&[0xC8, 0]), Error::InvalidBody);
    assert_eq!(
        e(&[0xC1, 10, 2, 0, 0, 0, 0, 0, 0, 0, 0, 1]),
        Error::InvalidBody
    );
    assert_eq!(e(&[0xD2, 1, 2]), Error::InvalidBody);
    assert_eq!(e(&[0xC3, 1, 4]), Error::MissingEncryptedData);
    // An announced signature that never comes, or that is something else.
    let mut announced = vec![0xC4, 1, 3];
    announced.extend_from_slice(&Message::new_literal("", "x").to_bytes().unwrap());
    assert_eq!(e(&announced), Error::UnexpectedEof);
    announced.extend_from_slice(&[0xC3, 1, 4]);
    assert_eq!(e(&announced), Error::UnexpectedPacket(3));
    // Encrypted data without any data writes nothing.
    let nothing = Message::Encrypted {
        esk: vec![],
        edata: vec![],
    };
    assert_eq!(nothing.to_bytes(), Ok(vec![]));
}

#[test]
fn what_cannot_be_written_is_refused() {
    let mut long = literal(Version::New, 0);
    long.file_name = vec![b'n'; 256];
    assert_eq!(
        Message::Literal(long.clone()).to_bytes(),
        Err(Error::FileNameTooLong)
    );
    long.file_name.pop();
    round_trip(&Message::Literal(long.clone()));

    let old = SymEncryptedProtectedData {
        packet_version: Version::Old,
        data: vec![],
    };
    let m = Message::Encrypted {
        esk: vec![Esk::SymKeyEncryptedSessionKey(skesk())],
        edata: vec![Edata::SymEncryptedProtectedData(old)],
    };
    // What comes before the packet that fails has been written.
    let mut out = vec![1];
    assert_eq!(m.to_writer(&mut out), Err(Error::TagTooLarge));
    assert_eq!(out, vec![1, 0xC3, 2, 4, 7]);
    assert_eq!(m.to_bytes(), Err(Error::TagTooLarge));
}

#[test]
fn a_packet_is_read_with_what_follows() {
    let bytes = [0xC3, 2, 4, 7, 99];
    let (p, rest) = read_packet(&bytes).unwrap();
    assert_eq!(p, Packet::SymKeyEncryptedSessionKey(skesk()));
    assert_eq!(rest, &[99]);
}
