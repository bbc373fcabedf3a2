use airbender_io::transport::MockTransport;
use airbender_io::wire::{frame_len_word, frame_words_from_bytes, read_framed_bytes_with, WireError};

#[test]
fn framing_roundtrip() {
    let bytes = b"airbender";
    let words = frame_words_from_bytes(bytes).expect("frame words");
    assert_eq!(words[0], bytes.len() as u32);
    let mut transport = MockTransport::new(words);
    let reconstructed = read_framed_bytes_with(&mut transport);
    assert_eq!(reconstructed, bytes);
}

#[test]
fn closure_reader_handles_partial_word() {
    let bytes = [0x12u8, 0x34, 0x56];
    let words = frame_words_from_bytes(&bytes).expect("frame words");
    let mut transport = MockTransport::new(words);
    let reconstructed = read_framed_bytes_with(&mut transport);
    assert_eq!(reconstructed, bytes);
}

#[test]
fn rejects_lengths_above_u32_max() {
    let err = frame_len_word(usize::MAX).expect_err("must reject oversized length");
    assert_eq!(err, WireError::PayloadTooLarge { len: usize::MAX });
}

#[test]
fn frame_len_word_accepts_u32_max() {
    assert_eq!(frame_len_word(u32::MAX as usize), Ok(u32::MAX));
    assert_eq!(frame_len_word(0), Ok(0));
}

#[test]
fn frames_empty_payload_as_single_length_word() {
    let words = frame_words_from_bytes(&[]).expect("frame words");
    assert_eq!(words, vec![0u32]);
    let mut transport = MockTransport::new(words);
    assert_eq!(read_framed_bytes_with(&mut transport), Vec::<u8>::new());
}

#[test]
fn frames_bytes_little_endian_with_zero_padding() {
    let words = frame_words_from_bytes(&[1, 2, 3, 4, 5, 6]).expect("frame words");
    assert_eq!(words, vec![6, 0x04030201, 0x0000_0605]);
}

#[test]
fn frames_whole_words_without_padding_word() {
    let words = frame_words_from_bytes(&[0xaa, 0xbb, 0xcc, 0xdd]).expect("frame words");
    assert_eq!(words, vec![4, 0xddccbbaa]);
}

#[test]
fn reads_frames_in_order_and_leaves_following_words() {
    let mut words = frame_words_from_bytes(b"hello").expect("frame words");
    words.extend(frame_words_from_bytes(b"ok").expect("frame words"));
    words.push(0xdead_beef);
    let mut transport = MockTransport::new(words);
    assert_eq!(read_framed_bytes_with(&mut transport), b"hello".to_vec());
    assert_eq!(read_framed_bytes_with(&mut transport), b"ok".to_vec());
    // The frame after the payloads is a length word of its own.
    let mut tail = MockTransport::new(vec![1, 0xdead_beef]);
    assert_eq!(read_framed_bytes_with(&mut tail), vec![0xef]);
}

#[test]
fn read_ignores_padding_bytes_of_last_word() {
    let mut transport = MockTransport::new(vec![2, 0xffff_3412]);
    assert_eq!(read_framed_bytes_with(&mut transport), vec![0x12, 0x34]);
}

#[test]
fn wire_error_message() {
    let err = WireError::PayloadTooLarge { len: 4_294_967_296 };
    assert_eq!(err.message(), "payload length 4294967296 exceeds u32 framing limit");
    let err = WireError::PayloadTooLarge { len: 0 };
    assert_eq!(err.message(), "payload length 0 exceeds u32 framing limit");
}
