# paranocrypt

A verified library for PARANOCRYPT, a stream encryption mode that derives
its traffic keys from a master key through a memory-hard key hardener and
re-derives them every 256 blocks.

Layout:

- `src/parano/transform.rs`: the keyed 128-round Feistel block transform,
  with its inverse and the proof that it is invertible.
- `src/parano/hardener.rs`: the hardener (table initialisation, pointer
  chasing steps, derived key).
- `src/parano/cipher.rs`: the cipher state header, the keystream model, the
  stream cipher and its laws (encryption and decryption agree, chunking does
  not matter, the header round-trips).
- `src/parano/stream_laws.rs`: where each keystream byte comes from, the
  traffic-key schedule, and the laws of the transform over streams cut into
  chunks.
- `src/parano/utils.rs`: little-endian encoding and the hexadecimal key
  format, with the law that a key written in hexadecimal loads back.
- `src/parano/entropy.rs`, `src/parano/random.rs`: word sources for users to
  implement.
- `src/cipher.rs`: the first-generation key derivation table.
- `app/`: the command-line program (`--key FILE [--decrypt]`), which reads
  standard input and writes standard output.
