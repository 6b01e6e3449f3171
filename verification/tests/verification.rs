use pgp_message::errors::Error;
use pgp_message::message::Message;
use pgp_message::packet::Signature;
use pgp_message::types::{CompressionAlgorithm, Version};

/// A signature is good if it is the sum of the octets and the key.
fn check(signature: &Signature, key: &u8, data: &[u8]) -> Result<(), Error> {
    let sum = data.iter().fold(*key, |a, b| a.wrapping_add(*b));
    if signature.data == vec![sum] {
        Ok(())
    } else {
        Err(Error::Other("bad signature".to_string()))
    }
}

fn signed(message: Option<Message>, sum: u8) -> Message {
    Message::Signed {
        message: message.map(Box::new),
        one_pass_signature: None,
        signature: Signature {
            packet_version: Version::New,
            data: vec![sum],
        },
    }
}

#[test]
fn signatures_on_literal_data_are_checked() {
    let lit = Message::new_literal("a.txt", "\u{1}\u{2}");
    let good = signed(Some(lit.clone()), 13);
    assert_eq!(good.verify(&10, check), Ok(()));
    assert_eq!(
        good.verify(&11, check),
        Err(Error::Other("bad signature".to_string()))
    );
    let (s, d) = good.signed_data().unwrap().unwrap();
    assert_eq!(s.data, vec![13]);
    assert_eq!(d, &[1, 2]);
}

#[test]
fn compressed_messages_are_opened_first() {
    let m = signed(Some(Message::new_literal("a.txt", "\u{1}\u{2}")), 13);
    let once = m.compress(CompressionAlgorithm::ZIP).unwrap();
    let twice = once.compress(CompressionAlgorithm::ZLIB).unwrap();
    assert_eq!(twice.verify(&10, check), Ok(()));
    assert_eq!(
        twice.verify(&9, check),
        Err(Error::Other("bad signature".to_string()))
    );
    assert_eq!(twice.verify_within(&10, check, 1), None);
    assert_eq!(twice.verify_within(&10, check, 2), Some(Ok(())));
}

#[test]
fn compression_hides_no_signature() {
    let m = signed(Some(Message::new_literal("a.txt", "\u{1}\u{2}")), 13);
    let c = m.compress(CompressionAlgorithm::ZLIB).unwrap();
    assert_eq!(c.verify(&10, check), Ok(()));
    assert_eq!(
        c.verify(&9, check),
        Err(Error::Other("bad signature".to_string()))
    );
}

#[test]
fn what_cannot_be_opened_cannot_be_verified() {
    let broken = Message::Compressed(pgp_message::packet::CompressedData::from_compressed(
        CompressionAlgorithm::ZIP,
        vec![7],
    ));
    assert_eq!(broken.verify(&0, check), Err(Error::Decompression));
}

#[test]
fn other_signatures_cannot_be_verified() {
    let compressed = Message::new_literal("a", "b")
        .compress(CompressionAlgorithm::ZIP)
        .unwrap();
    assert_eq!(
        signed(Some(compressed.clone()), 0).verify(&0, check),
        Err(Error::UnimplementedVerify(Box::new(compressed)))
    );
    let inner = signed(None, 3);
    let error = signed(Some(inner), 0).verify(&0, check).unwrap_err();
    assert_eq!(
        error.message(),
        "verify for Signed { message: None, one_pass_signature: None, \
         signature: Signature { packet_version: New, data: [3] } }"
    );
    assert_eq!(
        signed(None, 0).verify(&0, check),
        Err(Error::UnimplementedDetached)
    );
}

#[test]
fn messages_without_signatures_have_nothing_to_verify() {
    let never = |_: &Signature, _: &u8, _: &[u8]| panic!("not called");
    let lit = Message::new_literal("a", "b");
    assert_eq!(lit.verify(&0, never), Ok(()));
    assert_eq!(
        lit.compress(CompressionAlgorithm::ZIP)
            .unwrap()
            .verify(&0, never),
        Ok(())
    );
    let encrypted = Message::Encrypted {
        esk: vec![],
        edata: vec![],
    };
    assert_eq!(encrypted.verify(&0, never), Ok(()));
}
