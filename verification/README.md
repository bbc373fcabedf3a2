# airbender_io

Verified host/guest input framing.

A payload is carried as `u32` words: a length word, then the payload packed four
bytes per word in little-endian order, the last word zero-padded.

- `src/wire.rs`: the format as spec functions (`frame`, `unframe`), framing
  (`frame_words_from_bytes`), reading one frame back (`read_framed_bytes_with`), and
  the laws relating them (`lemma_read_after_frame`, `lemma_frame_roundtrip`,
  `lemma_frame_layout`, `lemma_payload_after_length_word`, `lemma_frames_push`,
  `lemma_read_frames_in_order`).
- `src/transport.rs`: the `Transport` word source and an in-memory `MockTransport`.
- `src/word_reader.rs`: `WordReader`, a byte reader over a transport, with its word
  accounting (`words_taken`, `lemma_words_taken_total`).
- `src/input.rs`: reading the payload of a frame of known size into a fixed buffer.
- `src/inputs.rs`: `Inputs`, the host-side builder of framed words, and its hex text.
- `src/text.rs`: decimal and hex renderings used by messages and hex output.
- `app/`: codec calls, file output, `Display` impls and the `wincode` reader impl.
