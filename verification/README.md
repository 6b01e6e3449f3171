# pgp_message

OpenPGP messages: literal, compressed, signed and encrypted ones, as they are
written in packets and in armored text, with their behaviour stated in
contracts and proved by Verus.

- `src/` is the library. `message`, `grammar` and `round_trip` hold what a message is,
  how it is written and read, and when it reads back as it was; `frame`, `packet` and
  `encrypted` the packets below it; `content`, `verification`, `encryption`,
  `decryption` and `unsealing` what is done with a message; `armor`, `header_text`,
  `headers`, `base64` and `crc24` its text form.
- Compression is done by `flate2`, and session keys come from `rand`. Ciphers and
  signature schemes are handed in by the caller as functions; the contracts say what
  they are given and what becomes of their results.
- `app/` offers the same over readers, writers and any random number generator.
- `tests/` runs the library.
