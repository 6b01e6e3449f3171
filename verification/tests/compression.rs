use pgp_message::compression::{compress_bytes, decompress_bytes};
use pgp_message::errors::Error;
use pgp_message::message::Message;
use pgp_message::packet::{CompressedData, LiteralData, Signature};
use pgp_message::types::{CompressionAlgorithm, DataMode, Version};

fn compressed_of(m: &Message) -> &CompressedData {
    match m {
        Message::Compressed(c) => c,
        _ => panic!("not compressed"),
    }
}

/// The octets of `Message::new_literal("hello.txt", "hello world")`.
fn hello_octets() -> Vec<u8> {
    let mut v = vec![203u8, 26, 117, 9];
    v.extend_from_slice(b"hello.txt");
    v.extend_from_slice(&[0, 0, 0, 0]);
    v.extend_from_slice(b"hello world");
    v
}

/// A raw DEFLATE stream of one stored block.
fn stored_block(data: &[u8]) -> Vec<u8> {
    let n = data.len() as u8;
    let mut v = vec![1u8, n, 0, !n, 255];
    v.extend_from_slice(data);
    v
}

#[test]
fn test_compression_zlib() {
    let lit_msg = Message::new_literal("hello-zlib.txt", "hello world");

    let compressed_msg = lit_msg
        .clone()
        .compress(CompressionAlgorithm::ZLIB)
        .unwrap();
    let uncompressed_msg = compressed_msg.decompress().unwrap();

    assert_eq!(&lit_msg, &uncompressed_msg);
}

#[test]
fn test_compression_zip() {
    let lit_msg = Message::new_literal("hello-zip.txt", "hello world");

    let compressed_msg = lit_msg.clone().compress(CompressionAlgorithm::ZIP).unwrap();
    let uncompressed_msg = compressed_msg.decompress().unwrap();

    assert_eq!(&lit_msg, &uncompressed_msg);
}

#[test]
fn test_compression_uncompressed() {
    let lit_msg = Message::new_literal("hello.txt", "hello world");

    let compressed_msg = lit_msg
        .clone()
        .compress(CompressionAlgorithm::Uncompressed)
        .unwrap();
    let uncompressed_msg = compressed_msg.decompress().unwrap();

    assert_eq!(&lit_msg, &uncompressed_msg);
}

#[test]
fn uncompressed_keeps_the_octets() {
    let m = Message::new_literal("hello.txt", "hello world")
        .compress(CompressionAlgorithm::Uncompressed)
        .unwrap();
    let c = compressed_of(&m);
    assert_eq!(c.packet_version, Version::New);
    assert_eq!(c.algorithm, CompressionAlgorithm::Uncompressed);
    assert_eq!(c.data, hello_octets());
}

#[test]
fn zip_is_deflate_and_zlib_is_zlib() {
    let octets = hello_octets();
    let zip = compress_bytes(CompressionAlgorithm::ZIP, &octets).unwrap();
    let zlib = compress_bytes(CompressionAlgorithm::ZLIB, &octets).unwrap();
    assert_ne!(zip, octets);
    assert_ne!(zlib, octets);
    assert_eq!(zlib[0], 0x78);
    assert_eq!(&zlib[zlib.len() - 4..], &[0x88, 0x3e, 0x09, 0x62]);
    assert_eq!(&zlib[2..zlib.len() - 4], &zip[..]);
    assert_eq!(
        decompress_bytes(CompressionAlgorithm::ZIP, &zip),
        Ok(octets.clone())
    );
    assert_eq!(
        decompress_bytes(CompressionAlgorithm::ZLIB, &zlib),
        Ok(octets)
    );
}

#[test]
fn stored_blocks_are_opened() {
    let octets = hello_octets();
    let block = stored_block(&octets);
    assert_eq!(
        decompress_bytes(CompressionAlgorithm::ZIP, &block),
        Ok(octets.clone())
    );
    let mut zlib = vec![0x78u8, 0x01];
    zlib.extend_from_slice(&block);
    zlib.extend_from_slice(&[0x88, 0x3e, 0x09, 0x62]);
    assert_eq!(
        decompress_bytes(CompressionAlgorithm::ZLIB, &zlib),
        Ok(octets)
    );

    let m = Message::Compressed(CompressedData::from_compressed(
        CompressionAlgorithm::ZIP,
        block,
    ));
    assert_eq!(
        m.decompress(),
        Ok(Message::new_literal("hello.txt", "hello world"))
    );
}

#[test]
fn empty_data_round_trips() {
    for alg in vec![
        CompressionAlgorithm::Uncompressed,
        CompressionAlgorithm::ZIP,
        CompressionAlgorithm::ZLIB,
    ] {
        let c = compress_bytes(alg, &[]).unwrap();
        assert_eq!(decompress_bytes(alg, &c), Ok(vec![]));
    }
}

#[test]
fn unknown_algorithms_are_refused() {
    let m = Message::new_literal("a", "b");
    assert_eq!(
        m.clone().compress(CompressionAlgorithm::BZip2),
        Err(Error::UnimplementedBZip2)
    );
    assert_eq!(
        m.compress(CompressionAlgorithm::Private10),
        Err(Error::UnsupportedPrivate10)
    );
    let c = |alg| Message::Compressed(CompressedData::from_compressed(alg, vec![1, 2]));
    assert_eq!(
        c(CompressionAlgorithm::BZip2).decompress(),
        Err(Error::UnimplementedBZip2)
    );
    assert_eq!(
        c(CompressionAlgorithm::Private10).decompress(),
        Err(Error::UnsupportedPrivate10)
    );
}

#[test]
fn unknown_algorithms_are_refused_before_writing() {
    let m = Message::Literal(LiteralData {
        packet_version: Version::New,
        mode: DataMode::Binary,
        file_name: vec![b'x'; 256],
        created: 0,
        data: vec![],
    });
    assert_eq!(
        m.clone().compress(CompressionAlgorithm::BZip2),
        Err(Error::UnimplementedBZip2)
    );
    assert_eq!(
        m.compress(CompressionAlgorithm::ZLIB),
        Err(Error::FileNameTooLong)
    );
}

#[test]
fn corrupt_data_is_an_error() {
    let c = |alg, data| Message::Compressed(CompressedData::from_compressed(alg, data));
    assert_eq!(
        c(CompressionAlgorithm::ZIP, vec![7, 7, 7]).decompress(),
        Err(Error::Decompression)
    );
    assert_eq!(
        c(CompressionAlgorithm::ZLIB, vec![0x78, 0x01, 1]).decompress(),
        Err(Error::Decompression)
    );
    assert_eq!(
        c(CompressionAlgorithm::Uncompressed, vec![]).decompress(),
        Err(Error::UnexpectedEof)
    );
}

#[test]
fn other_messages_stay_as_they_are() {
    let m = Message::new_literal("a", "b");
    assert_eq!(m.clone().decompress(), Ok(m));
}

#[test]
fn content_lies_under_compression() {
    let m = Message::new_literal("hello.txt", "hello world");
    let once = m.clone().compress(CompressionAlgorithm::ZLIB).unwrap();
    let twice = once.clone().compress(CompressionAlgorithm::ZIP).unwrap();
    assert_eq!(m.get_content(), Ok(Some(b"hello world".to_vec())));
    assert_eq!(once.get_content(), Ok(Some(b"hello world".to_vec())));
    assert_eq!(twice.get_content(), Ok(Some(b"hello world".to_vec())));
    assert_eq!(twice.innermost(), Ok(m.clone()));

    assert_eq!(twice.get_content_within(1), None);
    assert_eq!(
        twice.get_content_within(2),
        Some(Ok(Some(b"hello world".to_vec())))
    );
    assert_eq!(twice.innermost_within(0), None);
    assert_eq!(twice.innermost_within(2), Some(Ok(m.clone())));
    assert_eq!(m.innermost_within(0), Some(Ok(m.clone())));

    let broken = Message::Compressed(CompressedData::from_compressed(
        CompressionAlgorithm::ZIP,
        vec![7],
    ));
    assert_eq!(broken.get_content(), Err(Error::Decompression));
    assert_eq!(
        broken.get_content_within(0),
        Some(Err(Error::Decompression))
    );
}

#[test]
fn literal_data_is_found_under_signatures_only() {
    let lit = Message::new_literal("a.txt", "content");
    let sig = Signature {
        packet_version: Version::New,
        data: vec![4, 0],
    };
    let signed = Message::Signed {
        message: Some(Box::new(lit.clone())),
        one_pass_signature: None,
        signature: sig.clone(),
    };
    assert!(lit.is_literal());
    assert!(signed.is_literal());
    assert_eq!(signed.get_literal().unwrap().data(), b"content");
    assert_eq!(signed.get_content(), Ok(Some(b"content".to_vec())));
    assert!(!signed.is_one_pass_signed());

    let detached = Message::Signed {
        message: None,
        one_pass_signature: None,
        signature: sig.clone(),
    };
    assert!(!detached.is_literal());
    assert_eq!(detached.get_literal(), None);
    assert_eq!(detached.get_content(), Ok(None));

    let compressed = lit.compress(CompressionAlgorithm::ZIP).unwrap();
    assert!(!compressed.is_literal());
    assert_eq!(compressed.get_literal(), None);
    let signed_compressed = Message::Signed {
        message: Some(Box::new(compressed)),
        one_pass_signature: None,
        signature: sig,
    };
    assert_eq!(
        signed_compressed.get_content(),
        Ok(Some(b"content".to_vec()))
    );
    assert_eq!(signed_compressed.get_literal(), None);
}

#[test]
fn content_lies_under_signatures_and_compression_in_any_nesting() {
    let sign = |m: Message| Message::Signed {
        message: Some(Box::new(m)),
        one_pass_signature: None,
        signature: Signature {
            packet_version: Version::New,
            data: vec![4, 0],
        },
    };
    let zip = |m: Message| m.compress(CompressionAlgorithm::ZIP).unwrap();
    let lit = Message::new_literal("a.txt", "content");
    let m = sign(zip(sign(sign(zip(lit)))));
    assert_eq!(m.get_content(), Ok(Some(b"content".to_vec())));
    assert_eq!(m.get_content_within(1), None);
    assert_eq!(
        m.get_content_within(2),
        Some(Ok(Some(b"content".to_vec())))
    );
    assert_eq!(zip(m).get_content(), Ok(Some(b"content".to_vec())));

    let broken = Message::Compressed(CompressedData::from_compressed(
        CompressionAlgorithm::ZIP,
        vec![7],
    ));
    assert_eq!(
        sign(zip(sign(broken))).get_content(),
        Err(Error::Decompression)
    );
    let encrypted = Message::Encrypted {
        esk: vec![],
        edata: vec![],
    };
    assert_eq!(sign(encrypted).get_content(), Ok(None));
}
