//! A byte reader over a word transport.

use crate::transport::Transport;
use crate::wire::{le_byte, word_byte, word_bytes};
use vstd::prelude::*;

verus! {

/// The bytes of a non-empty word sequence are the first word's four bytes
/// followed by the bytes of the rest.
proof fn lemma_word_bytes_first(ws: Seq<u32>)
    requires
        ws.len() > 0,
    ensures
        word_bytes(ws).len() == 4 * ws.len(),
        word_bytes(ws)[0] == le_byte(ws[0], 0),
        word_bytes(ws)[1] == le_byte(ws[0], 1),
        word_bytes(ws)[2] == le_byte(ws[0], 2),
        word_bytes(ws)[3] == le_byte(ws[0], 3),
        word_bytes(ws).skip(4) == word_bytes(ws.drop_first()),
{
    let rest = ws.drop_first();
    assert forall|i: int| 0 <= i < 4 * rest.len() implies #[trigger] word_bytes(ws).skip(4)[i]
        == word_bytes(rest)[i] by {
        assert((i + 4) / 4 == i / 4 + 1);
        assert((i + 4) % 4 == i % 4);
    }
    assert(word_bytes(ws).skip(4) =~= word_bytes(rest));
}

/// Reads bytes from a word-based [`Transport`].
///
/// Words are served as their four little-endian bytes; the unread bytes of the
/// last word taken from the transport are kept for the next read, and a word is
/// taken from the transport only when those run out.
pub struct WordReader<'a, T: Transport> {
    transport: &'a mut T,
    buf: [u8; 4],
    /// Next byte to read from `buf`.
    pos: usize,
    /// Number of valid bytes in `buf`.
    len: usize,
}

/// Number of words a read of `n` bytes takes from the transport when `buffered`
/// bytes of the current word are still unread.
pub open spec fn words_taken(buffered: nat, n: nat) -> nat {
    if n <= buffered {
        0
    } else {
        ((n - buffered) + 3) as nat / 4
    }
}

/// For a reader that has delivered `c` bytes in all since it was created, the
/// bytes still buffered are those left of the last word taken.
pub open spec fn buffered_after(c: nat) -> nat {
    (4 * ((c + 3) / 4) - c) as nat
}

/// Word accounting over successive reads: after `c` bytes have been delivered from a
/// fresh reader (so `buffered_after(c)` bytes are buffered), a read of `n` more bytes
/// takes `(c + n + 3) / 4 - (c + 3) / 4` words and leaves `buffered_after(c + n)`
/// bytes buffered. Hence `c` bytes delivered in any number of reads take exactly
/// `(c + 3) / 4` words from the transport, and fewer than four bytes read from it
/// are ever left undelivered.
pub proof fn lemma_words_taken_total(c: nat, n: nat)
    ensures
        buffered_after(c) < 4,
        words_taken(buffered_after(c), n) == (c + n + 3) / 4 - (c + 3) / 4,
        buffered_after(c) + 4 * words_taken(buffered_after(c), n) - n == buffered_after(c + n),
{
}

impl<'a, T: Transport> WordReader<'a, T> {
    /// Well-formedness: the read position lies within the valid part of the buffer.
    pub closed spec fn wf(&self) -> bool {
        self.pos <= self.len <= 4
    }

    /// The unread bytes of the last word taken from the transport.
    pub closed spec fn buffered(&self) -> Seq<u8> {
        self.buf@.subrange(self.pos as int, self.len as int)
    }

    /// The words still pending in the transport.
    pub closed spec fn pending_words(&self) -> Seq<u32> {
        self.transport.pending()
    }

    /// The borrow of the transport that this reader holds.
    pub closed spec fn transport_ref(&self) -> &'a mut T {
        self.transport
    }

    /// The bytes this reader will deliver next, in order: the buffered bytes, then
    /// the bytes of the words still pending in the transport.
    pub open spec fn stream(&self) -> Seq<u8> {
        self.buffered() + word_bytes(self.pending_words())
    }

    /// Creates a reader that starts at the transport's next word. No word is read
    /// and nothing is buffered.
    pub fn new(transport: &'a mut T) -> (r: Self)
        ensures
            r.wf(),
            r.buffered() == Seq::<u8>::empty(),
            r.pending_words() == old(transport).pending(),
            *final(r.transport_ref()) == *final(transport),
    {
        let r = WordReader { transport, buf: [0;4], pos: 0, len: 0 };
        assert(r.buffered() =~= Seq::<u8>::empty());
        r
    }

    /// Ends the reader and hands back the transport, with the words that the reader
    /// has not taken still pending.
    pub fn into_transport(self) -> (t: &'a mut T)
        ensures
            t.pending() == self.pending_words(),
            *final(t) == *final(self.transport_ref()),
    {
        self.transport
    }

    /// Copies the next `dst.len()` bytes of the stream into `dst` and consumes them.
    ///
    /// Buffered bytes are used first; then exactly
    /// `words_taken(buffered.len(), dst.len())` words are taken from the transport.
    #[verifier::rlimit(30)]
    pub fn copy_into_slice(&mut self, dst: &mut [u8])
        requires
            old(self).wf(),
            old(dst)@.len() <= old(self).stream().len(),
        ensures
            final(self).wf(),
            final(dst)@.len() == old(dst)@.len(),
            final(dst)@ == old(self).stream().take(old(dst)@.len() as int),
            final(self).stream() == old(self).stream().skip(old(dst)@.len() as int),
            final(self).pending_words() == old(self).pending_words().skip(
                words_taken(old(self).buffered().len(), old(dst)@.len()) as int,
            ),
            final(self).buffered().len() == old(self).buffered().len() + 4 * words_taken(
                old(self).buffered().len(),
                old(dst)@.len(),
            ) - old(dst)@.len(),
            *final(final(self).transport_ref()) == *final(old(self).transport_ref()),
    {
        let ghost s0 = self.stream();
        let ghost p0 = self.pending_words();
        let ghost b0 = (self.len - self.pos) as nat;
        let ghost mut k: nat = 0;
        let total = dst.len();
        let mut written: usize = 0;

        // Drain any leftover bytes from the current word
        while written < total && self.pos < self.len
            invariant
                *final(self.transport) == *final(old(self).transport),
                self.pos <= self.len <= 4,
                dst@.len() == total,
                total <= s0.len(),
                written <= total,
                written <= b0,
                self.len - self.pos == b0 - written,
                self.transport.pending() == p0,
                self.stream() == s0.skip(written as int),
                forall|i: int| 0 <= i < written ==> #[trigger] dst@[i] == s0[i],
            decreases total - written,
        {
            let ghost before = self.stream();
            assert(before[0] == self.buf@[self.pos as int]);
            assert(before[0] == s0[written as int]);
            dst[written] = self.buf[self.pos];
            self.pos = self.pos + 1;
            written = written + 1;
            assert(self.stream() =~= before.skip(1));
            assert(self.stream() =~= s0.skip(written as int));
        }

        // Read full words directly
        while total - written >= 4
            invariant
                *final(self.transport) == *final(old(self).transport),
                self.pos <= self.len <= 4,
                dst@.len() == total,
                total <= s0.len(),
                written <= total,
                total <= b0 ==> written == total && k == 0 && self.len - self.pos == b0 - total,
                total > b0 ==> written == b0 + 4 * k && self.pos == self.len,
                k <= p0.len(),
                self.transport.pending() == p0.skip(k as int),
                self.stream() == s0.skip(written as int),
                forall|i: int| 0 <= i < written ==> #[trigger] dst@[i] == s0[i],
            decreases total - written,
        {
            let ghost p = self.transport.pending();
            assert(self.stream() =~= word_bytes(p));
            proof {
                lemma_word_bytes_first(p);
            }
            let word = self.transport.read_word();
            assert(forall|j: int| 0 <= j < 4 ==> s0[written + j] == #[trigger] word_bytes(p)[j]);
            dst[written] = word_byte(word, 0);
            dst[written + 1] = word_byte(word, 1);
            dst[written + 2] = word_byte(word, 2);
            dst[written + 3] = word_byte(word, 3);
            written = written + 4;
            assert forall|i: int| 0 <= i < written implies #[trigger] dst@[i] == s0[i] by {
                if i >= written - 4 {
                    assert(s0[i] == word_bytes(p)[i - (written - 4)]);
                }
            }
            proof {
                k = k + 1;
            }
            assert(self.transport.pending() =~= p0.skip(k as int));
            assert(self.stream() =~= word_bytes(p.drop_first()));
            assert(s0.skip(written as int) =~= s0.skip(written - 4).skip(4));
        }

        // Read a partial word for remaining bytes
        if written < total {
            let ghost p = self.transport.pending();
            assert(self.stream() =~= word_bytes(p));
            proof {
                lemma_word_bytes_first(p);
            }
            self.refill();
            proof {
                k = k + 1;
            }
            assert(self.transport.pending() =~= p0.skip(k as int));
            assert(self.stream() =~= s0.skip(written as int));
            while written < total
                invariant
                    *final(self.transport) == *final(old(self).transport),
                    self.pos <= self.len,
                    self.len == 4,
                    dst@.len() == total,
                    total <= s0.len(),
                    written <= total,
                    self.pos + (total - written) <= 4,
                    self.len - self.pos >= total - written,
                    self.len - self.pos - (total - written) == 4 * k + b0 - total,
                    self.transport.pending() == p0.skip(k as int),
                    self.stream() == s0.skip(written as int),
                    forall|i: int| 0 <= i < written ==> #[trigger] dst@[i] == s0[i],
                decreases total - written,
            {
                let ghost before = self.stream();
                assert(before[0] == self.buf@[self.pos as int]);
                assert(before[0] == s0[written as int]);
                dst[written] = self.buf[self.pos];
                self.pos = self.pos + 1;
                written = written + 1;
                assert(self.stream() =~= before.skip(1));
                assert(self.stream() =~= s0.skip(written as int));
            }
        }
        assert(k == words_taken(b0, total as nat));
        assert(dst@ =~= s0.take(total as int));
    }

    /// Reading `n` bytes and then `m` more gives the same bytes, and leaves the same
    /// stream, as reading `n + m` bytes at once: reads may split the stream anywhere,
    /// word boundaries included.
    pub proof fn lemma_consecutive_reads(&self, n: nat, m: nat)
        requires
            n + m <= self.stream().len(),
        ensures
            self.stream().take(n as int) + self.stream().skip(n as int).take(m as int)
                == self.stream().take((n + m) as int),
            self.stream().skip(n as int).skip(m as int) == self.stream().skip((n + m) as int),
    {
        assert(self.stream().take(n as int) + self.stream().skip(n as int).take(m as int)
            =~= self.stream().take((n + m) as int));
        assert(self.stream().skip(n as int).skip(m as int) =~= self.stream().skip((n + m) as int));
    }

    /// Takes the next word from the transport into the buffer.
    fn refill(&mut self)
        requires
            old(self).transport.pending().len() > 0,
        ensures
            final(self).wf(),
            final(self).pos == 0,
            final(self).len == 4,
            final(self).buf@ == word_bytes(old(self).transport.pending()).take(4),
            final(self).transport.pending() == old(self).transport.pending().drop_first(),
            *final(final(self).transport) == *final(old(self).transport),
    {
        let ghost p = self.transport.pending();
        let word = self.transport.read_word();
        proof {
            lemma_word_bytes_first(p);
        }
        self.buf = [word_byte(word, 0), word_byte(word, 1), word_byte(word, 2), word_byte(word, 3)];
        self.pos = 0;
        self.len = 4;
        assert(self.buf@ =~= word_bytes(p).take(4));
    }
}

} // verus!
