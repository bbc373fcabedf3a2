//! Word-oriented transports that carry input from the host to the guest.

use vstd::prelude::*;

verus! {

/// A source of input words, read one at a time in order.
///
/// `pending` is the sequence of words the transport still has to deliver.
pub trait Transport {
    /// The words this transport will deliver next, in order.
    spec fn pending(&self) -> Seq<u32>;

    /// Reads the next word from the transport.
    fn read_word(&mut self) -> (word: u32)
        requires
            old(self).pending().len() > 0,
        ensures
            word == old(self).pending()[0],
            final(self).pending() == old(self).pending().drop_first(),
    ;
}

/// An in-memory transport over a fixed list of words.
pub struct MockTransport {
    words: Vec<u32>,
    pos: usize,
}

impl MockTransport {
    /// The read position never passes the end of the words.
    #[verifier::type_invariant]
    spec fn wf(&self) -> bool {
        self.pos <= self.words.len()
    }

    /// Creates a transport that delivers `words` in order.
    pub fn new(words: Vec<u32>) -> (t: Self)
        ensures
            t.pending() == words@,
    {
        let t = MockTransport { words, pos: 0 };
        assert(t.words@.skip(0) =~= t.words@);
        t
    }
}

impl Transport for MockTransport {
    closed spec fn pending(&self) -> Seq<u32> {
        self.words@.skip(self.pos as int)
    }

    fn read_word(&mut self) -> (word: u32) {
        proof {
            use_type_invariant(&*self);
        }
        let word = self.words[self.pos];
        self.pos = self.pos + 1;
        assert(self.words@.skip(self.pos as int) =~= old(self).words@.skip(old(self).pos as int).drop_first());
        word
    }
}

} // verus!
