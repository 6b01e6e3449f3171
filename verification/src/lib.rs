//! OpenPGP messages: their packets, their grammar on the wire, and what is done
//! with them (compression, encryption, verification, armor).
pub mod armor;
pub mod armor_laws;
pub mod base64;
pub mod be;
pub mod choice_laws;
pub mod compression;
pub mod content;
pub mod crc24;
pub mod decryption;
pub mod encrypted;
pub mod encryption;
pub mod errors;
pub mod frame;
pub mod grammar;
pub mod grammar_laws;
pub mod header_text;
pub mod headers;
pub mod message;
pub mod packet;
pub mod round_trip;
pub mod sealing_laws;
pub mod session_key;
pub mod types;
pub mod unsealing;
pub mod verification;
pub mod wire_laws;
