# uncm

`uncm` decodes NCM music containers. Nothing is uploaded, no audio is
transcoded, and only the standard library is used.

## The format

A container holds, one after the other:

1. the magic number `CTENFDAM` and two bytes;
2. the key section, its length in four bytes in front (lowest byte first):
   masked with `0x64`, AES-128-ECB with PKCS#7 padding, `neteasecloudmusic` and
   the stream key;
3. the metadata section, its length in front: masked with `0x63`,
   `163 key(Don't modify):` and Base64 of AES-128-ECB of `music:` and JSON;
4. nine bytes; the cover, its length in front;
5. the audio under a key stream that depends on the stream key and on the offset
   of each byte alone.

## Layout

- `src/aes.rs`, `src/aes/field.rs`: AES-128 decryption, proved to invert
  encryption.
- `src/ncm/`: the format. `container.rs` states the layout, `opening.rs` reads
  it piece by piece, `laws.rs` says what holds of containers as a whole.
- `src/cli.rs`, `src/batch.rs`, `src/output.rs`, `src/report.rs`: the command
  line, the choice and order of files, the steps of writing a target, and what is
  said about it.
- `app/`: the program, which touches the file system.
- `tests/`: values.
