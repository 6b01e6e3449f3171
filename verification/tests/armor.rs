use pgp_message::armor::{push_armored, read_armored};
use pgp_message::base64::{decode_base64, push_base64};
use pgp_message::crc24::crc24;
use pgp_message::errors::Error;
use pgp_message::headers::Headers;
use pgp_message::message::Message;
use pgp_message::packet::LiteralData;
use pgp_message::types::{DataMode, Version};

const HELLO: &str = "-----BEGIN PGP MESSAGE-----\n\nyxp1CWhlbGxvLnR4dAAAAABoZWxsbyB3b3JsZA==\n=ovk8\n-----END PGP MESSAGE-----\n";

fn parse(text: &[u8]) -> Result<Message, Error> {
    Message::from_armor_single(text).map(|found| found.0)
}

/// The headers of armored text, as they are read.
fn headers(text: &str) -> Vec<(String, String)> {
    match Message::from_armor_single(text.as_bytes()) {
        Ok((_, h)) => (0..h.len())
            .map(|i| (h.entry(i).0.to_string(), h.entry(i).1.to_string()))
            .collect(),
        Err(e) => panic!("{:?}", e),
    }
}

fn hello() -> Message {
    Message::new_literal("hello.txt", "hello world")
}

#[test]
fn armored_text_is_exact() {
    let m = hello();
    assert_eq!(m.to_armored_string(None), Ok(HELLO.to_string()));
    assert_eq!(m.to_armored_bytes(None), Ok(HELLO.as_bytes().to_vec()));
    let mut out = b"> ".to_vec();
    assert_eq!(m.to_armored_writer(&mut out, None), Ok(()));
    assert_eq!(out, [b"> ", HELLO.as_bytes()].concat());
    assert_eq!(parse(HELLO.as_bytes()), Ok(m));
}

#[test]
fn long_text_is_broken_into_lines() {
    let m = Message::new_literal("hello.txt", "The quick brown fox jumps over the lazy dog");
    let text = "-----BEGIN PGP MESSAGE-----\n\nyzp1CWhlbGxvLnR4dAAAAABUaGUgcXVpY2sgYnJvd24gZm94IGp1bXBzIG92ZXIg\ndGhlIGxhenkgZG9n\n=jwVw\n-----END PGP MESSAGE-----\n";
    assert_eq!(m.to_armored_string(None), Ok(text.to_string()));
    assert_eq!(parse(text.as_bytes()), Ok(m));
}

#[test]
fn octets_of_any_length_round_trip() {
    for n in 0..200usize {
        let data: Vec<u8> = (0..n).map(|i| (i * 7 + n) as u8).collect();
        let mut text = Vec::new();
        push_armored(&mut text, &data, None);
        assert_eq!(read_armored(&text).map(|found| found.0), Ok(data));
    }
}

#[test]
fn headers_stand_in_the_order_of_their_keys() {
    let mut h = Headers::new();
    h.insert("Version".to_string(), "1".to_string());
    h.insert("Comment".to_string(), "gr\u{fc}n".to_string());
    h.insert("Hash".to_string(), "none".to_string());
    h.insert("Version".to_string(), "2".to_string());
    assert_eq!(h.len(), 3);
    assert_eq!(h.entry(0), ("Comment", "gr\u{fc}n"));
    assert_eq!(h.entry(1), ("Hash", "none"));
    assert_eq!(h.entry(2), ("Version", "2"));
    let text = hello().to_armored_string(Some(&h)).unwrap();
    assert_eq!(
        text,
        HELLO.replacen(
            "\n\n",
            "\nComment: gr\u{fc}n\nHash: none\nVersion: 2\n\n",
            1
        )
    );
    assert_eq!(parse(text.as_bytes()), Ok(hello()));
    assert_eq!(
        headers(&text),
        vec![
            ("Comment".to_string(), "gr\u{fc}n".to_string()),
            ("Hash".to_string(), "none".to_string()),
            ("Version".to_string(), "2".to_string()),
        ]
    );
    assert_eq!(headers(HELLO), vec![]);
}

#[test]
fn header_lines_are_read_as_they_come() {
    let with = |lines: &str| HELLO.replacen("\n\n", &format!("\n{}\n", lines), 1);
    let pair = |k: &str, v: &str| (k.to_string(), v.to_string());
    // The last value of a key counts, and the keys come in their order.
    assert_eq!(
        headers(&with("b: 1\na: 2\nb: 3\n")),
        vec![pair("a", "2"), pair("b", "3")]
    );
    // A key ends at the first colon with a space; other lines are passed over.
    assert_eq!(
        headers(&with("no header\nk:x: y: z\nempty: \n")),
        vec![pair("empty", ""), pair("k:x", "y: z")]
    );
    let mut not_text = with("k: ?\n").into_bytes();
    let at = not_text.iter().position(|b| *b == b'?').unwrap();
    not_text[at] = 0xFF;
    let (m, h) = match Message::from_armor_single(&not_text) {
        Ok(found) => found,
        Err(e) => panic!("{:?}", e),
    };
    assert_eq!(m, hello());
    assert_eq!(h.len(), 0);
}

#[test]
fn line_breaks_in_headers() {
    let armor = |value: &str| {
        let mut h = Headers::new();
        h.insert("k".to_string(), value.to_string());
        hello().to_armored_string(Some(&h)).unwrap()
    };
    assert_eq!(parse(armor("a\nb").as_bytes()), Ok(hello()));
    assert_eq!(parse(armor("a\n").as_bytes()), Ok(hello()));
    assert_eq!(parse(armor("a\n\n\n").as_bytes()), Ok(hello()));
    assert!(parse(armor("a\n\nb").as_bytes()).is_err());
}

#[test]
fn a_key_before_its_extension() {
    let mut h = Headers::new();
    h.insert("ab".to_string(), "2".to_string());
    h.insert("a".to_string(), "1".to_string());
    h.insert("".to_string(), "0".to_string());
    assert_eq!(h.entry(0), ("", "0"));
    assert_eq!(h.entry(1), ("a", "1"));
    assert_eq!(h.entry(2), ("ab", "2"));
}

#[test]
fn a_message_that_cannot_be_written_cannot_be_armored() {
    let m = Message::Literal(LiteralData {
        packet_version: Version::New,
        mode: DataMode::Text,
        file_name: vec![b'n'; 300],
        created: 0,
        data: vec![],
    });
    let mut out = vec![1];
    assert_eq!(
        m.to_armored_writer(&mut out, None),
        Err(Error::FileNameTooLong)
    );
    assert_eq!(out, vec![1]);
    assert_eq!(m.to_armored_bytes(None), Err(Error::FileNameTooLong));
    assert_eq!(m.to_armored_string(None), Err(Error::FileNameTooLong));
}

#[test]
fn bad_armor_is_refused() {
    let e = |s: &str| parse(s.as_bytes()).unwrap_err();
    assert_eq!(e(""), Error::InvalidArmor);
    assert_eq!(e(&HELLO.replace("BEGIN", "START")), Error::InvalidArmor);
    assert_eq!(e(&HELLO.replace("END", "EOF")), Error::InvalidArmor);
    assert_eq!(e(&HELLO.replace("\n\n", "\n")), Error::InvalidArmor);
    assert_eq!(e(&HELLO.replace("=ovk8", "ovk8")), Error::InvalidArmor);
    assert_eq!(e(&HELLO.replace("yxp1", "y*p1")), Error::InvalidArmor);
    assert_eq!(e(&HELLO.replace("=ovk8", "=ovk9")), Error::InvalidChecksum);
    assert_eq!(e(&HELLO.replace("yxp1", "yxp2")), Error::InvalidChecksum);
    let mut not_a_message = Vec::new();
    push_armored(&mut not_a_message, &[1, 2, 3], None);
    assert_eq!(
        parse(&not_a_message),
        Err(Error::InvalidHeader)
    );
}

#[test]
fn base64_is_exact() {
    let encode = |s: &str| {
        let mut out = Vec::new();
        push_base64(&mut out, s.as_bytes());
        String::from_utf8(out).unwrap()
    };
    assert_eq!(encode(""), "");
    assert_eq!(encode("f"), "Zg==");
    assert_eq!(encode("fo"), "Zm8=");
    assert_eq!(encode("foo"), "Zm9v");
    assert_eq!(encode("foob"), "Zm9vYg==");
    assert_eq!(encode("foobar"), "Zm9vYmFy");
    assert_eq!(decode_base64(b"Zm9vYg=="), Some(b"foob".to_vec()));
    assert_eq!(decode_base64(b"+/+/"), Some(vec![0xfb, 0xff, 0xbf]));
    assert_eq!(decode_base64(b"Zm9"), None);
    assert_eq!(decode_base64(b"Z==="), None);
    assert_eq!(decode_base64(b"Zg==Zg=="), None);
}

#[test]
fn checksums_are_exact() {
    assert_eq!(crc24(b""), 0xB704CE);
    assert_eq!(crc24(b"123456789"), 0x21CF02);
}
