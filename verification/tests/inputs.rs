use airbender_io::input::read_fixed_payload;
use airbender_io::inputs::Inputs;
use airbender_io::transport::{MockTransport, Transport};
use airbender_io::wire::read_framed_bytes_with;

#[test]
fn new_inputs_are_empty() {
    assert!(Inputs::new().words().is_empty());
    assert!(Inputs::default().words().is_empty());
}

#[test]
fn push_bytes_appends_one_frame() {
    let mut inputs = Inputs::new();
    inputs.push_bytes(&[0x29]).expect("frame input bytes");
    assert_eq!(inputs.words(), &[1, 0x29]);
    inputs.push_bytes(&[1, 2, 3, 4, 5]).expect("frame input bytes");
    assert_eq!(inputs.words(), &[1, 0x29, 5, 0x04030201, 0x05]);
}

#[test]
fn hex_text_has_one_word_per_line() {
    let mut inputs = Inputs::new();
    inputs.push_bytes(&[0x29]).expect("frame input bytes");
    assert_eq!(inputs.hex_text(), "00000001\n00000029\n");
}

#[test]
fn hex_text_pads_and_uses_lower_case() {
    let mut inputs = Inputs::new();
    inputs.push_bytes(&[0xef, 0xbe, 0xad, 0xde]).expect("frame input bytes");
    assert_eq!(inputs.hex_text(), "00000004\ndeadbeef\n");
    assert_eq!(Inputs::new().hex_text(), "");
}

#[test]
fn guest_reads_back_what_host_pushed() {
    let mut inputs = Inputs::new();
    inputs.push_bytes(b"first payload").expect("frame input bytes");
    inputs.push_bytes(&[]).expect("frame input bytes");
    inputs.push_bytes(&[9, 8, 7, 6, 5]).expect("frame input bytes");
    let mut transport = MockTransport::new(inputs.words().to_vec());
    assert_eq!(read_framed_bytes_with(&mut transport), b"first payload".to_vec());
    assert_eq!(read_framed_bytes_with(&mut transport), Vec::<u8>::new());
    assert_eq!(transport.read_word(), 5);
    let fixed: [u8; 5] = read_fixed_payload::<_, 5>(&mut transport);
    assert_eq!(fixed, [9, 8, 7, 6, 5]);
}

#[test]
fn fixed_read_takes_only_payload_words() {
    let mut transport = MockTransport::new(vec![3, 0xff030201, 0x77]);
    assert_eq!(transport.read_word(), 3);
    assert_eq!(read_fixed_payload::<_, 3>(&mut transport), [1, 2, 3]);
    assert_eq!(transport.read_word(), 0x77);
}

#[test]
fn fixed_read_of_whole_words() {
    let words: Vec<u32> = vec![32, 1, 0, 2, 0, 3, 0, 4, 0];
    let mut transport = MockTransport::new(words);
    assert_eq!(transport.read_word(), 32);
    let buf = read_fixed_payload::<_, 32>(&mut transport);
    let values: Vec<u64> = buf
        .chunks(8)
        .map(|c| u64::from_le_bytes(c.try_into().unwrap()))
        .collect();
    assert_eq!(values, vec![1, 2, 3, 4]);
}
