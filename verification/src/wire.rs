//! The input wire format.
//!
//! The input stream is encoded as `u32` words where:
//! - the first word stores the payload byte length,
//! - each following word stores up to 4 payload bytes in little-endian order,
//! - the final word is zero-padded when the payload length is not a multiple of 4.

use crate::text::{decimal, push_decimal};
use crate::transport::Transport;
use vstd::arithmetic::power::pow;
use vstd::prelude::*;

verus! {

/// Number of payload bytes carried by one word.
pub const WORD_BYTES: usize = 4;

/// Errors that can occur while framing input payloads.
#[derive(Debug, Clone, Copy, PartialEq, Eq, Structural)]
pub enum WireError {
    PayloadTooLarge { len: usize },
}

impl WireError {
    /// The human-readable description of the error.
    pub fn message(&self) -> (msg: String)
        ensures
            msg@ == (match *self {
                WireError::PayloadTooLarge { len } => "payload length "@ + decimal(len as nat)
                    + " exceeds u32 framing limit"@,
            }),
    {
        match self {
            WireError::PayloadTooLarge { len } => {
                let mut msg = String::from_str("payload length ");
                push_decimal(*len, &mut msg);
                msg.append(" exceeds u32 framing limit");
                msg
            },
        }
    }
}

/// Number of words that carry `n` payload bytes.
pub open spec fn words_for(n: nat) -> nat {
    (n + 3) / 4
}

/// The word whose little-endian bytes are `b0, b1, b2, b3`.
pub open spec fn le_word(b0: u8, b1: u8, b2: u8, b3: u8) -> u32 {
    (b0 + 256 * b1 + 65536 * b2 + 16777216 * b3) as u32
}

/// Byte `k` (`0` is the least significant) of the word `w`.
pub open spec fn le_byte(w: u32, k: int) -> u8 {
    if k == 0 {
        (w % 256) as u8
    } else if k == 1 {
        ((w / 256) % 256) as u8
    } else if k == 2 {
        ((w / 65536) % 256) as u8
    } else {
        (w / 16777216) as u8
    }
}

/// Payload byte `i`, or zero past the end of the payload.
pub open spec fn padded_byte(bytes: Seq<u8>, i: int) -> u8 {
    if 0 <= i < bytes.len() {
        bytes[i]
    } else {
        0
    }
}

/// Word `j` of the payload: bytes `4j .. 4j + 4`, zero-padded.
pub open spec fn payload_word(bytes: Seq<u8>, j: int) -> u32 {
    le_word(
        padded_byte(bytes, 4 * j),
        padded_byte(bytes, 4 * j + 1),
        padded_byte(bytes, 4 * j + 2),
        padded_byte(bytes, 4 * j + 3),
    )
}

/// The frame of a payload: its length word followed by the packed payload words.
pub open spec fn frame(bytes: Seq<u8>) -> Seq<u32> {
    seq![bytes.len() as u32] + Seq::new(words_for(bytes.len()), |j: int| payload_word(bytes, j))
}

/// The bytes carried by a sequence of words, four per word, little-endian.
pub open spec fn word_bytes(words: Seq<u32>) -> Seq<u8> {
    Seq::new(4 * words.len(), |i: int| le_byte(words[i / 4], i % 4))
}

/// Number of words in a frame whose length word is `len`.
pub open spec fn frame_word_count(len: u32) -> nat {
    1 + words_for(len as nat)
}

/// Whether `words` starts with a complete frame.
pub open spec fn holds_frame(words: Seq<u32>) -> bool {
    words.len() > 0 && words.len() >= frame_word_count(words[0])
}

/// The payload of the frame at the front of `words`.
pub open spec fn unframe(words: Seq<u32>) -> Seq<u8> {
    word_bytes(words.subrange(1, frame_word_count(words[0]) as int)).take(words[0] as int)
}

/// Packing four bytes with shifts gives their little-endian word.
proof fn lemma_pack_word(b0: u8, b1: u8, b2: u8, b3: u8)
    ensures
        (b0 as u32) | ((b1 as u32) << 8) | ((b2 as u32) << 16) | ((b3 as u32) << 24) == le_word(
            b0,
            b1,
            b2,
            b3,
        ),
{
    assert((b0 as u32) | ((b1 as u32) << 8) | ((b2 as u32) << 16) | ((b3 as u32) << 24) == (b0
        as u32) + (b1 as u32) * 256 + (b2 as u32) * 65536 + (b3 as u32) * 16777216) by (bit_vector);
}

/// The bytes of a little-endian word are the bytes it was built from.
proof fn lemma_le_bytes_of_word(b0: u8, b1: u8, b2: u8, b3: u8)
    ensures
        le_byte(le_word(b0, b1, b2, b3), 0) == b0,
        le_byte(le_word(b0, b1, b2, b3), 1) == b1,
        le_byte(le_word(b0, b1, b2, b3), 2) == b2,
        le_byte(le_word(b0, b1, b2, b3), 3) == b3,
{
    let w = le_word(b0, b1, b2, b3);
    assert(w == (b0 as u32) + (b1 as u32) * 256 + (b2 as u32) * 65536 + (b3 as u32) * 16777216);
    assert((((b0 as u32) + (b1 as u32) * 256 + (b2 as u32) * 65536 + (b3 as u32) * 16777216) % 256)
        as u8 == b0) by (bit_vector);
    assert(((((b0 as u32) + (b1 as u32) * 256 + (b2 as u32) * 65536 + (b3 as u32) * 16777216) / 256)
        % 256) as u8 == b1) by (bit_vector);
    assert(((((b0 as u32) + (b1 as u32) * 256 + (b2 as u32) * 65536 + (b3 as u32) * 16777216)
        / 65536) % 256) as u8 == b2) by (bit_vector);
    assert((((b0 as u32) + (b1 as u32) * 256 + (b2 as u32) * 65536 + (b3 as u32) * 16777216)
        / 16777216) as u8 == b3) by (bit_vector);
}

/// Byte `i` of the packed payload words is payload byte `i`, or zero past the payload.
proof fn lemma_payload_byte(bytes: Seq<u8>, i: int)
    requires
        0 <= i,
    ensures
        le_byte(payload_word(bytes, i / 4), i % 4) == padded_byte(bytes, i),
{
    let j = i / 4;
    lemma_le_bytes_of_word(
        padded_byte(bytes, 4 * j),
        padded_byte(bytes, 4 * j + 1),
        padded_byte(bytes, 4 * j + 2),
        padded_byte(bytes, 4 * j + 3),
    );
    assert(i == 4 * j + i % 4);
}

/// Byte `k` of a word, extracted with shifts and masks.
pub(crate) fn word_byte(w: u32, k: usize) -> (b: u8)
    requires
        k < 4,
    ensures
        b == le_byte(w, k as int),
{
    if k == 0 {
        assert(w & 0xff == w % 256) by (bit_vector);
        (w & 0xff) as u8
    } else if k == 1 {
        assert((w >> 8) & 0xff == (w / 256) % 256) by (bit_vector);
        ((w >> 8) & 0xff) as u8
    } else if k == 2 {
        assert((w >> 16) & 0xff == (w / 65536) % 256) by (bit_vector);
        ((w >> 16) & 0xff) as u8
    } else {
        assert(w >> 24 == w / 16777216) by (bit_vector);
        (w >> 24) as u8
    }
}

/// Payload byte `i`, or zero past the end.
fn padded_byte_at(bytes: &[u8], i: usize) -> (b: u8)
    ensures
        b == padded_byte(bytes@, i as int),
{
    if i < bytes.len() {
        bytes[i]
    } else {
        0
    }
}

/// Converts a payload length into the frame's length word.
pub fn frame_len_word(len: usize) -> (res: Result<u32, WireError>)
    ensures
        len <= u32::MAX ==> res == Ok::<u32, WireError>(len as u32),
        len > u32::MAX ==> res == Err::<u32, WireError>(WireError::PayloadTooLarge { len }),
{
    if len <= 0xffff_ffffusize {
        Ok(len as u32)
    } else {
        Err(WireError::PayloadTooLarge { len })
    }
}

/// Frames payload bytes into the input words consumed by the runtime.
///
/// Fails exactly when the payload length does not fit in the `u32` length word.
pub fn frame_words_from_bytes(bytes: &[u8]) -> (res: Result<Vec<u32>, WireError>)
    ensures
        bytes@.len() <= u32::MAX ==> (res matches Ok(words) && words@ == frame(bytes@)),
        bytes@.len() > u32::MAX ==> res == Err::<Vec<u32>, WireError>(
            WireError::PayloadTooLarge { len: bytes@.len() as usize },
        ),
{
    let len_word = match frame_len_word(bytes.len()) {
        Ok(w) => w,
        Err(e) => return Err(e),
    };
    let n = bytes.len();
    let word_count = n / WORD_BYTES + if n % WORD_BYTES == 0 {
        0
    } else {
        1
    };
    assert(word_count == words_for(n as nat));
    let mut words: Vec<u32> = Vec::new();
    words.push(len_word);
    let mut j: usize = 0;
    while j < word_count
        invariant
            n == bytes@.len(),
            n <= u32::MAX,
            len_word == n as u32,
            word_count == words_for(n as nat),
            j <= word_count,
            words@ =~= frame(bytes@).take(j + 1),
        decreases word_count - j,
    {
        let i = WORD_BYTES * j;
        let b0 = padded_byte_at(bytes, i);
        let b1 = padded_byte_at(bytes, i + 1);
        let b2 = padded_byte_at(bytes, i + 2);
        let b3 = padded_byte_at(bytes, i + 3);
        let w = (b0 as u32) | ((b1 as u32) << 8) | ((b2 as u32) << 16) | ((b3 as u32) << 24);
        proof {
            lemma_pack_word(b0, b1, b2, b3);
        }
        words.push(w);
        j = j + 1;
        assert(words@ =~= frame(bytes@).take(j + 1));
    }
    assert(frame(bytes@).len() == j + 1);
    assert(words@ =~= frame(bytes@));
    Ok(words)
}

/// Reads one framed payload from a word source.
///
/// The source yields the frame's length word first, then the payload words;
/// exactly the words of that one frame are consumed.
pub fn read_framed_bytes_with<T: Transport>(transport: &mut T) -> (bytes: Vec<u8>)
    requires
        holds_frame(old(transport).pending()),
    ensures
        bytes@ == unframe(old(transport).pending()),
        final(transport).pending() == old(transport).pending().skip(
            frame_word_count(old(transport).pending()[0]) as int,
        ),
{
    let ghost p = transport.pending();
    let len_word = transport.read_word();
    let len = len_word as usize;
    let words_needed = len / WORD_BYTES + if len % WORD_BYTES == 0 {
        0
    } else {
        1
    };
    assert(words_needed == words_for(len as nat));
    let mut bytes: Vec<u8> = Vec::new();
    let mut remaining = len;
    let mut k: usize = 0;
    while k < words_needed
        invariant
            p.len() >= frame_word_count(len_word),
            len == p[0],
            len == len_word,
            words_needed == words_for(len as nat),
            k <= words_needed,
            transport.pending() == p.skip(1 + k),
            bytes@.len() + remaining == len,
            bytes@.len() == if 4 * k <= len { 4 * k } else { len as int },
            forall|i: int| 0 <= i < bytes@.len() ==> #[trigger] bytes@[i] == le_byte(p[1 + i / 4], i % 4),
        decreases words_needed - k,
    {
        assert(4 * k < len);
        assert(1 + k < p.len());
        assert(transport.pending().len() == p.len() - (1 + k));
        assert(transport.pending()[0] == p[1 + k]);
        let w = transport.read_word();
        assert(transport.pending() =~= p.skip(1 + k + 1));
        let take = if remaining < WORD_BYTES {
            remaining
        } else {
            WORD_BYTES
        };
        let mut t: usize = 0;
        while t < take
            invariant
                take <= 4,
                t <= take,
                take - t <= remaining,
                bytes@.len() + remaining == len,
                1 + k < p.len(),
                bytes@.len() == 4 * k + t,
                w == p[1 + k],
                forall|i: int| 0 <= i < bytes@.len() ==> #[trigger] bytes@[i] == le_byte(p[1 + i / 4], i % 4),
            decreases take - t,
        {
            let b = word_byte(w, t);
            bytes.push(b);
            remaining = remaining - 1;
            t = t + 1;
        }
        k = k + 1;
    }
    let ghost words = p.subrange(1, frame_word_count(len_word) as int);
    assert(bytes@ =~= word_bytes(words).take(len as int));
    bytes
}

/// A frame carries its payload followed by zero padding up to a whole number of words:
/// the length word holds the payload length, and the payload words, read four
/// little-endian bytes at a time, give the payload and then only zero bytes.
pub proof fn lemma_frame_layout(bytes: Seq<u8>)
    requires
        bytes.len() <= u32::MAX,
    ensures
        frame(bytes).len() == 1 + words_for(bytes.len()),
        frame(bytes)[0] == bytes.len(),
        4 * words_for(bytes.len()) - bytes.len() < 4,
        word_bytes(frame(bytes).drop_first()) == bytes + Seq::new(
            (4 * words_for(bytes.len()) - bytes.len()) as nat,
            |i: int| 0u8,
        ),
{
    let n = bytes.len();
    let payload = frame(bytes).drop_first();
    assert(payload =~= Seq::new(words_for(n), |j: int| payload_word(bytes, j)));
    let padded = bytes + Seq::new((4 * words_for(n) - n) as nat, |i: int| 0u8);
    assert forall|i: int| 0 <= i < 4 * words_for(n) implies #[trigger] word_bytes(payload)[i]
        == padded[i] by {
        lemma_payload_byte(bytes, i);
    }
    assert(word_bytes(payload) =~= padded);
}

/// Reading a frame back gives the framed payload, and leaves whatever followed the frame:
/// for any payload that fits the length word and any words `rest` after its frame, the
/// stream `frame(bytes) + rest` starts with a complete frame whose payload is `bytes`,
/// and skipping that frame leaves exactly `rest`.
pub proof fn lemma_read_after_frame(bytes: Seq<u8>, rest: Seq<u32>)
    requires
        bytes.len() <= u32::MAX,
    ensures
        holds_frame(frame(bytes) + rest),
        unframe(frame(bytes) + rest) == bytes,
        (frame(bytes) + rest).skip(frame_word_count((frame(bytes) + rest)[0]) as int) == rest,
{
    let n = bytes.len();
    let stream = frame(bytes) + rest;
    assert(stream[0] == n as u32);
    assert(frame_word_count(stream[0]) == frame(bytes).len());
    let payload = stream.subrange(1, frame_word_count(stream[0]) as int);
    assert(payload =~= Seq::new(words_for(n), |j: int| payload_word(bytes, j)));
    assert forall|i: int| 0 <= i < n implies #[trigger] unframe(stream)[i] == bytes[i] by {
        lemma_payload_byte(bytes, i);
    }
    assert(unframe(stream) =~= bytes);
    assert(stream.skip(frame(bytes).len() as int) =~= rest);
}

/// A frame read in two steps, the length word first and then `ceil(len / 4)` payload
/// words of which the first `len` bytes are kept, gives the frame's payload and leaves
/// the same words as reading the frame in one go.
pub proof fn lemma_payload_after_length_word(words: Seq<u32>)
    requires
        holds_frame(words),
    ensures
        words.drop_first().len() >= words_for(words[0] as nat),
        word_bytes(words.drop_first()).take(words[0] as int) == unframe(words),
        words.drop_first().skip(words_for(words[0] as nat) as int) == words.skip(
            frame_word_count(words[0]) as int,
        ),
{
    let len = words[0] as int;
    let payload = words.subrange(1, frame_word_count(words[0]) as int);
    assert forall|i: int| 0 <= i < len implies #[trigger] word_bytes(words.drop_first()).take(
        len,
    )[i] == unframe(words)[i] by {
        assert(words.drop_first()[i / 4] == payload[i / 4]);
    }
    assert(word_bytes(words.drop_first()).take(len) =~= unframe(words));
    assert(words.drop_first().skip(words_for(words[0] as nat) as int) =~= words.skip(
        frame_word_count(words[0]) as int,
    ));
}

/// The frames of several payloads, one after another.
pub open spec fn frames(payloads: Seq<Seq<u8>>) -> Seq<u32>
    decreases payloads.len(),
{
    if payloads.len() == 0 {
        Seq::empty()
    } else {
        frame(payloads[0]) + frames(payloads.drop_first())
    }
}

/// The payloads that `count` successive frame reads take from `words`.
pub open spec fn read_frames(words: Seq<u32>, count: nat) -> Seq<Seq<u8>>
    decreases count,
{
    if count == 0 {
        Seq::empty()
    } else {
        seq![unframe(words)] + read_frames(
            words.skip(frame_word_count(words[0]) as int),
            (count - 1) as nat,
        )
    }
}

/// The words left after `count` successive frame reads from `words`.
pub open spec fn after_frames(words: Seq<u32>, count: nat) -> Seq<u32>
    decreases count,
{
    if count == 0 {
        words
    } else {
        after_frames(words.skip(frame_word_count(words[0]) as int), (count - 1) as nat)
    }
}

/// Appending a frame to the frames of some payloads gives the frames of the payloads
/// with the new one added at the end.
pub proof fn lemma_frames_push(payloads: Seq<Seq<u8>>, bytes: Seq<u8>)
    ensures
        frames(payloads.push(bytes)) == frames(payloads) + frame(bytes),
    decreases payloads.len(),
{
    if payloads.len() == 0 {
        let one = payloads.push(bytes);
        assert(one.drop_first() =~= Seq::<Seq<u8>>::empty());
        assert(one[0] == bytes);
        assert(frames(one.drop_first()) == Seq::<u32>::empty());
        assert(frames(one) =~= frame(bytes) + Seq::<u32>::empty());
        assert(frames(payloads.push(bytes)) =~= frames(payloads) + frame(bytes));
    } else {
        assert(payloads.push(bytes).drop_first() =~= payloads.drop_first().push(bytes));
        lemma_frames_push(payloads.drop_first(), bytes);
        assert(frames(payloads.push(bytes)) =~= frames(payloads) + frame(bytes));
    }
}

/// Reading frames back one at a time from the frames of several payloads gives the
/// payloads in order: before each read the words start with a complete frame, the
/// read gives the next payload, and after the last read no word is left.
pub proof fn lemma_read_frames_in_order(payloads: Seq<Seq<u8>>)
    requires
        forall|i: int| 0 <= i < payloads.len() ==> #[trigger] payloads[i].len() <= u32::MAX,
    ensures
        forall|k: nat| k < payloads.len() ==> #[trigger] holds_frame(
            after_frames(frames(payloads), k),
        ),
        read_frames(frames(payloads), payloads.len()) == payloads,
        after_frames(frames(payloads), payloads.len()) == Seq::<u32>::empty(),
    decreases payloads.len(),
{
    if payloads.len() > 0 {
        let rest = payloads.drop_first();
        lemma_read_frames_in_order(rest);
        lemma_read_after_frame(payloads[0], frames(rest));
        let words = frames(payloads);
        assert(words == frame(payloads[0]) + frames(rest));
        assert(words.skip(frame_word_count(words[0]) as int) == frames(rest));
        assert forall|k: nat| k < payloads.len() implies #[trigger] holds_frame(
            after_frames(frames(payloads), k),
        ) by {
            if k > 0 {
                assert(after_frames(words, k) == after_frames(frames(rest), (k - 1) as nat));
            }
        }
        assert(read_frames(words, payloads.len()) =~= seq![payloads[0]] + rest);
        assert(read_frames(words, payloads.len()) =~= payloads);
    }
}

/// Word and byte arithmetic is little-endian: byte `k` of `w` is the base-256 digit of
/// weight `256^k`, and the word of four bytes is their sum weighted by those powers.
pub proof fn lemma_little_endian(w: u32, k: nat, b0: u8, b1: u8, b2: u8, b3: u8)
    requires
        k < 4,
    ensures
        le_byte(w, k as int) == (w as int / pow(256, k)) % 256,
        le_word(b0, b1, b2, b3) == b0 + b1 * pow(256, 1) + b2 * pow(256, 2) + b3 * pow(256, 3),
{
    reveal(pow);
    assert(pow(256, 0) == 1);
    assert(pow(256, 1) == 256);
    assert(pow(256, 2) == 65536);
    assert(pow(256, 3) == 16777216);
    assert(w as int / 1 == w);
    assert(((w as int / 16777216) % 256) == w / 16777216);
}

/// Framing a payload and reading the frame back gives the payload.
pub proof fn lemma_frame_roundtrip(bytes: Seq<u8>)
    requires
        bytes.len() <= u32::MAX,
    ensures
        holds_frame(frame(bytes)),
        unframe(frame(bytes)) == bytes,
{
    lemma_read_after_frame(bytes, Seq::empty());
    assert(frame(bytes) + Seq::<u32>::empty() =~= frame(bytes));
}

} // verus!
