//! Guest-side input reading.

use crate::transport::Transport;
use crate::wire::{le_byte, word_byte, word_bytes, words_for, WORD_BYTES};
use vstd::prelude::*;

verus! {

/// Reads the payload of a frame whose length word has already been read and is
/// `N`, into a fixed-size buffer, without heap allocation.
///
/// Exactly the frame's payload words are consumed: the `N` bytes come from the
/// next `ceil(N / 4)` words, little-endian, and the padding bytes of the last word
/// are dropped.
pub fn read_fixed_payload<T: Transport, const N: usize>(transport: &mut T) -> (buf: [u8; N])
    requires
        old(transport).pending().len() >= words_for(N as nat),
    ensures
        buf@ == word_bytes(old(transport).pending()).take(N as int),
        final(transport).pending() == old(transport).pending().skip(words_for(N as nat) as int),
{
    let ghost p = transport.pending();
    let words_needed = N / WORD_BYTES + if N % WORD_BYTES == 0 {
        0
    } else {
        1
    };
    assert(words_needed == words_for(N as nat));
    let mut buf = [0u8;N];
    let mut offset: usize = 0;
    let mut k: usize = 0;
    while k < words_needed
        invariant
            p.len() >= words_needed,
            words_needed == words_for(N as nat),
            k <= words_needed,
            transport.pending() == p.skip(k as int),
            offset == if 4 * k <= N { 4 * k } else { N as int },
            forall|i: int| 0 <= i < offset ==> #[trigger] buf@[i] == le_byte(p[i / 4], i % 4),
        decreases words_needed - k,
    {
        assert(4 * k < N);
        assert(transport.pending().len() == p.len() - k);
        assert(transport.pending()[0] == p[k as int]);
        let word = transport.read_word();
        assert(transport.pending() =~= p.skip(k + 1));
        let to_copy = if N - offset < WORD_BYTES {
            N - offset
        } else {
            WORD_BYTES
        };
        let mut t: usize = 0;
        while t < to_copy
            invariant
                to_copy <= 4,
                t <= to_copy,
                offset + to_copy <= N,
                offset == 4 * k,
                k < p.len(),
                word == p[k as int],
                forall|i: int| 0 <= i < offset + t ==> #[trigger] buf@[i] == le_byte(p[i / 4], i % 4),
            decreases to_copy - t,
        {
            buf[offset + t] = word_byte(word, t);
            t = t + 1;
        }
        offset = offset + to_copy;
        k = k + 1;
    }
    assert(buf@ =~= word_bytes(p).take(N as int));
    buf
}

} // verus!
