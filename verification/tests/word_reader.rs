use airbender_io::transport::{MockTransport, Transport};
use airbender_io::word_reader::WordReader;

#[test]
fn reads_exact_words() {
    let mut transport = MockTransport::new(vec![0x04030201, 0x08070605]);
    let mut reader = WordReader::new(&mut transport);
    let mut result = [0u8; 8];
    reader.copy_into_slice(&mut result);
    assert_eq!(result, [1, 2, 3, 4, 5, 6, 7, 8]);
}

#[test]
fn reads_partial_word() {
    let mut transport = MockTransport::new(vec![0x04030201]);
    let mut reader = WordReader::new(&mut transport);
    let mut result = [0u8; 3];
    reader.copy_into_slice(&mut result);
    assert_eq!(result, [1, 2, 3]);
}

#[test]
fn reads_across_word_boundary() {
    let mut transport = MockTransport::new(vec![0x04030201, 0x08070605]);
    let mut reader = WordReader::new(&mut transport);
    let mut a = [0u8; 3];
    reader.copy_into_slice(&mut a);
    let mut b = [0u8; 3];
    reader.copy_into_slice(&mut b);
    assert_eq!(a, [1, 2, 3]);
    assert_eq!(b, [4, 5, 6]);
}

#[test]
fn reads_u64_le() {
    // 0x0807060504030201 as two LE u32 words
    let mut transport = MockTransport::new(vec![0x04030201, 0x08070605]);
    let mut reader = WordReader::new(&mut transport);
    let mut bytes = [0u8; 8];
    reader.copy_into_slice(&mut bytes);
    let value = u64::from_le_bytes(bytes);
    assert_eq!(value, 0x0807060504030201);
}

#[test]
fn split_reads_match_one_read() {
    let words = vec![0x04030201, 0x08070605, 0x0c0b0a09, 0x100f0e0d];
    let mut whole_transport = MockTransport::new(words.clone());
    let mut whole = [0u8; 15];
    WordReader::new(&mut whole_transport).copy_into_slice(&mut whole);

    let mut split_transport = MockTransport::new(words);
    let mut reader = WordReader::new(&mut split_transport);
    let mut parts = Vec::new();
    for len in [1usize, 6, 0, 5, 3] {
        let mut buf = vec![0u8; len];
        reader.copy_into_slice(&mut buf);
        parts.extend(buf);
    }
    assert_eq!(parts, whole.to_vec());
    assert_eq!(whole.to_vec(), (1u8..=15).collect::<Vec<u8>>());
}

#[test]
fn empty_read_takes_nothing() {
    let mut transport = MockTransport::new(vec![0x04030201]);
    let mut reader = WordReader::new(&mut transport);
    let mut none = [0u8; 0];
    reader.copy_into_slice(&mut none);
    let mut all = [0u8; 4];
    reader.copy_into_slice(&mut all);
    assert_eq!(all, [1, 2, 3, 4]);
}

#[test]
fn reader_takes_words_only_as_needed() {
    let mut transport = MockTransport::new(vec![0x04030201, 0x08070605, 0x0c0b0a09]);
    let mut reader = WordReader::new(&mut transport);
    let mut a = [0u8; 4];
    reader.copy_into_slice(&mut a);
    assert_eq!(a, [1, 2, 3, 4]);
    let transport = reader.into_transport();
    // Exactly one word was taken; the next word is still there.
    assert_eq!(transport.read_word(), 0x08070605);
}

#[test]
fn new_reader_takes_no_word() {
    let mut transport = MockTransport::new(vec![0x11, 0x22]);
    let reader = WordReader::new(&mut transport);
    let transport = reader.into_transport();
    assert_eq!(transport.read_word(), 0x11);
}

#[test]
fn partial_read_keeps_rest_of_word_buffered() {
    let mut transport = MockTransport::new(vec![0x04030201, 0x08070605, 0x0c0b0a09]);
    {
        let mut reader = WordReader::new(&mut transport);
        let mut a = [0u8; 5];
        reader.copy_into_slice(&mut a);
        assert_eq!(a, [1, 2, 3, 4, 5]);
        let mut b = [0u8; 3];
        reader.copy_into_slice(&mut b);
        assert_eq!(b, [6, 7, 8]);
    }
    // Eight bytes took two words.
    assert_eq!(transport.read_word(), 0x0c0b0a09);
}
